use lexical::format::{
    Section, DIGIT_SEPARATOR_UNIT, EXPONENT_CONSECUTIVE_DIGIT_SEPARATOR,
    EXPONENT_INTERNAL_DIGIT_SEPARATOR, FRACTION_TRAILING_DIGIT_SEPARATOR,
    INTEGER_CONSECUTIVE_DIGIT_SEPARATOR, INTEGER_INTERNAL_DIGIT_SEPARATOR,
    INTEGER_LEADING_DIGIT_SEPARATOR, INTEGER_TRAILING_DIGIT_SEPARATOR,
    SPECIAL_CONSECUTIVE_DIGIT_SEPARATOR, SPECIAL_INTERNAL_DIGIT_SEPARATOR,
    SPECIAL_LEADING_DIGIT_SEPARATOR, SPECIAL_TRAILING_DIGIT_SEPARATOR, STANDARD,
};
use lexical::iterator::{DigitsIter, Iter};
use lexical::skip::{section_syntax, AsBytes, Bytes, DigitsIterator};

const UNDERSCORE: u128 = STANDARD + (b'_' as u128) * DIGIT_SEPARATOR_UNIT;
const I: u128 = UNDERSCORE | INTEGER_INTERNAL_DIGIT_SEPARATOR;
const L: u128 = UNDERSCORE | INTEGER_LEADING_DIGIT_SEPARATOR;
const T: u128 = UNDERSCORE | INTEGER_TRAILING_DIGIT_SEPARATOR;
const IL: u128 = I | L;
const IT: u128 = I | T;
const LT: u128 = L | T;
const ILT: u128 = I | L | T;
const C: u128 = INTEGER_CONSECUTIVE_DIGIT_SEPARATOR;
const MIXED: u128 = UNDERSCORE
    | INTEGER_INTERNAL_DIGIT_SEPARATOR
    | FRACTION_TRAILING_DIGIT_SEPARATOR
    | EXPONENT_INTERNAL_DIGIT_SEPARATOR
    | EXPONENT_CONSECUTIVE_DIGIT_SEPARATOR;
const SPECIAL: u128 = UNDERSCORE
    | SPECIAL_INTERNAL_DIGIT_SEPARATOR
    | SPECIAL_LEADING_DIGIT_SEPARATOR
    | SPECIAL_TRAILING_DIGIT_SEPARATOR
    | SPECIAL_CONSECUTIVE_DIGIT_SEPARATOR;

fn collect<const FORMAT: u128>(input: &[u8]) -> Vec<u8> {
    let mut bytes = Bytes::<FORMAT>::new(input);
    let mut iter = bytes.integer_iter();
    let mut out = Vec::new();
    while let Some(&c) = iter.next() {
        out.push(c);
        assert!(out.len() <= input.len());
    }
    out
}

#[test]
fn new_cursor_stands_at_the_start() {
    let bytes = Bytes::<STANDARD>::new(b"123");
    assert_eq!(bytes.cursor(), 0);
    assert_eq!(bytes.current_count(), 0);
    assert_eq!(bytes.length(), 3);
    assert_eq!(bytes.get_buffer(), b"123");
    assert_eq!(bytes.as_slice(), b"123");
    assert!(!bytes.is_done());
    assert!(!bytes.is_empty());
    assert!(bytes.is_contiguous());
    assert_eq!(bytes.first(), Some(&b'1'));
    let empty = Bytes::<STANDARD>::new(b"");
    assert!(empty.is_done());
    assert!(empty.is_empty());
    assert_eq!(empty.first(), None);
    let input: &[u8] = b"45";
    let made = input.bytes::<I>();
    assert_eq!(made.cursor(), 0);
    assert!(!made.is_contiguous());
}

#[test]
fn peek_twice_yields_the_same_byte() {
    let mut bytes = Bytes::<I>::new(b"1_2");
    let mut iter = bytes.integer_iter();
    assert_eq!(iter.peek(), Some(&b'1'));
    assert_eq!(iter.peek(), Some(&b'1'));
    assert_eq!(iter.next(), Some(&b'1'));
    assert_eq!(iter.peek(), Some(&b'2'));
    assert_eq!(iter.cursor(), 2);
    assert_eq!(iter.peek(), Some(&b'2'));
    assert_eq!(iter.cursor(), 2);
    assert_eq!(iter.current_count(), 1);
    assert_eq!(iter.next(), Some(&b'2'));
    assert_eq!(iter.peek(), None);
    assert_eq!(iter.peek(), None);
    assert_eq!(iter.next(), None);
    assert!(iter.is_done());
    assert_eq!(iter.current_count(), 2);
}

#[test]
fn peek_twice_yields_the_same_byte_in_a_run() {
    // Separators may stand between digits, but not together: of a run
    // only the first is passed.
    let mut bytes = Bytes::<I>::new(b"1__0");
    let mut iter = bytes.integer_iter();
    assert_eq!(iter.next(), Some(&b'1'));
    assert_eq!(iter.cursor(), 1);
    assert_eq!(iter.peek(), Some(&b'_'));
    assert_eq!(iter.cursor(), 2);
    assert_eq!(iter.peek(), Some(&b'_'));
    assert_eq!(iter.cursor(), 2);
    assert!(!iter.is_consumed());
    assert!(iter.peek_is_cased(b'_'));
    assert!(iter.peek_is_uncased(b'_'));
    assert!(iter.peek_is(b'_', true));
    assert_eq!(iter.cursor(), 2);
    assert_eq!(iter.current_count(), 1);
    // Taking the byte after peeks takes the one that they showed.
    assert_eq!(iter.next(), Some(&b'_'));
    assert_eq!(iter.cursor(), 3);
    assert_eq!(iter.peek(), Some(&b'0'));
    assert_eq!(iter.peek(), Some(&b'0'));
    assert_eq!(iter.next(), Some(&b'0'));
    assert_eq!(iter.next(), None);
    // Longer runs, and runs at the start.
    let mut bytes = Bytes::<IL>::new(b"___1");
    let mut iter = bytes.integer_iter();
    assert_eq!(iter.peek(), Some(&b'_'));
    assert_eq!(iter.cursor(), 1);
    assert_eq!(iter.peek(), Some(&b'_'));
    assert_eq!(iter.cursor(), 1);
    assert_eq!(iter.next(), Some(&b'_'));
    assert_eq!(iter.peek(), Some(&b'_'));
    assert_eq!(iter.cursor(), 2);
    assert_eq!(iter.peek(), Some(&b'_'));
    assert_eq!(iter.cursor(), 2);
    // Where separators may stand together the whole run is passed, once.
    let mut bytes = Bytes::<{ I | C }>::new(b"1___0");
    let mut iter = bytes.integer_iter();
    assert_eq!(iter.next(), Some(&b'1'));
    assert_eq!(iter.peek(), Some(&b'0'));
    assert_eq!(iter.cursor(), 4);
    assert_eq!(iter.peek(), Some(&b'0'));
    assert_eq!(iter.cursor(), 4);
}

#[test]
fn a_byte_that_is_refused_stays_under_the_peek() {
    let mut bytes = Bytes::<I>::new(b"1__0");
    let mut iter = bytes.integer_iter();
    assert_eq!(iter.read_if(|c| c.is_ascii_digit()), Some(&b'1'));
    assert_eq!(iter.read_if(|c| c.is_ascii_digit()), None);
    assert_eq!(iter.cursor(), 2);
    assert_eq!(iter.peek(), Some(&b'_'));
    assert_eq!(iter.read_if(|c| c.is_ascii_digit()), None);
    assert_eq!(iter.cursor(), 2);
    assert_eq!(iter.peek(), Some(&b'_'));
    assert_eq!(iter.current_count(), 1);
    let mut bytes = Bytes::<I>::new(b"1_x");
    let mut iter = bytes.integer_iter();
    assert_eq!(iter.read_if(|c| c.is_ascii_digit()), Some(&b'1'));
    assert_eq!(iter.read_if(|c| c.is_ascii_digit()), None);
    assert_eq!(iter.peek(), Some(&b'_'));
    assert_eq!(iter.cursor(), 1);
}

#[test]
fn fraction_digits_of_a_decimal() {
    let mut bytes = Bytes::<STANDARD>::new(b"3.14159265358979");
    {
        let mut iter = bytes.integer_iter();
        assert_eq!(iter.next(), Some(&b'3'));
        assert_eq!(iter.next(), Some(&b'.'));
    }
    assert_eq!(bytes.cursor(), 2);
    let mut iter = bytes.fraction_iter();
    let mut digits = Vec::new();
    while let Some(&c) = iter.next() {
        digits.push(c);
    }
    assert_eq!(digits, b"14159265358979");
    assert_eq!(digits.len(), 14);
    assert_eq!(iter.next(), None);
    assert!(iter.is_done());
    assert!(iter.is_consumed());
}

#[test]
fn exponent_digits_of_a_decimal() {
    let mut bytes = Bytes::<STANDARD>::new(b"1e400");
    {
        let mut iter = bytes.integer_iter();
        assert_eq!(iter.next(), Some(&b'1'));
        assert_eq!(iter.next(), Some(&b'e'));
    }
    assert_eq!(bytes.cursor(), 2);
    let mut iter = bytes.exponent_iter();
    assert_eq!(iter.next(), Some(&b'4'));
    assert_eq!(iter.next(), Some(&b'0'));
    assert_eq!(iter.next(), Some(&b'0'));
    assert_eq!(iter.next(), None);
    assert!(iter.is_done());
}

#[test]
fn iterator_moves_the_bytes_under_it() {
    let mut bytes = Bytes::<I>::new(b"1_2x");
    {
        let mut iter = bytes.integer_iter();
        iter.next();
        iter.next();
    }
    assert_eq!(bytes.cursor(), 3);
    assert_eq!(bytes.current_count(), 2);
    assert_eq!(bytes.first(), Some(&b'x'));
    assert!(bytes.peek_is_cased(b'x'));
    assert!(!bytes.peek_is_cased(b'X'));
    assert_eq!(bytes.cursor(), 3);
}

#[test]
fn without_a_separator_every_byte_is_yielded() {
    assert_eq!(collect::<STANDARD>(b"1_2"), b"1_2");
    assert_eq!(collect::<UNDERSCORE>(b"1_2"), b"1_2");
    assert_eq!(collect::<STANDARD>(b""), b"");
}

#[test]
fn internal_separators() {
    assert_eq!(collect::<I>(b"1_2_3"), b"123");
    assert_eq!(collect::<I>(b"_12"), b"_12");
    assert_eq!(collect::<I>(b"12_"), b"12_");
    assert_eq!(collect::<I>(b"1__2"), b"1_2");
    assert_eq!(collect::<I>(b"1_x"), b"1_x");
    assert_eq!(collect::<{ I | C }>(b"1__2"), b"12");
    assert_eq!(collect::<{ I | C }>(b"__1___2__"), b"__12__");
}

#[test]
fn leading_separators() {
    assert_eq!(collect::<L>(b"_12"), b"12");
    assert_eq!(collect::<L>(b"1_2"), b"1_2");
    assert_eq!(collect::<L>(b"12_"), b"12_");
    assert_eq!(collect::<L>(b"x_12"), b"x12");
    assert_eq!(collect::<L>(b"__12"), b"_12");
    assert_eq!(collect::<{ L | C }>(b"___12"), b"12");
    assert_eq!(collect::<L>(b"_"), b"");
}

#[test]
fn trailing_separators() {
    assert_eq!(collect::<T>(b"12_"), b"12");
    assert_eq!(collect::<T>(b"12_x"), b"12x");
    assert_eq!(collect::<T>(b"1_2"), b"1_2");
    assert_eq!(collect::<T>(b"_12"), b"_12");
    assert_eq!(collect::<T>(b"12__"), b"12_");
    assert_eq!(collect::<{ T | C }>(b"12__"), b"12");
    assert_eq!(collect::<T>(b"_"), b"");
}

#[test]
fn separators_in_two_places() {
    assert_eq!(collect::<IL>(b"_1_2_"), b"12_");
    assert_eq!(collect::<IT>(b"_1_2_"), b"_12");
    assert_eq!(collect::<LT>(b"_1_2_"), b"1_2");
    assert_eq!(collect::<ILT>(b"_1_2_"), b"12");
    assert_eq!(collect::<ILT>(b"_1__2_"), b"1_2");
    assert_eq!(collect::<{ IL | C }>(b"__1__2__"), b"12__");
    assert_eq!(collect::<{ IT | C }>(b"__1__2__"), b"__12");
    assert_eq!(collect::<{ LT | C }>(b"__1__2__"), b"1__2");
    assert_eq!(collect::<{ ILT | C }>(b"__1__2__"), b"12");
}

#[test]
fn each_section_has_its_own_rules() {
    let mut bytes = Bytes::<MIXED>::new(b"1_2_");
    {
        let mut iter = bytes.fraction_iter();
        assert_eq!(iter.next(), Some(&b'1'));
        assert_eq!(iter.next(), Some(&b'_'));
        assert_eq!(iter.next(), Some(&b'2'));
        assert_eq!(iter.next(), None);
    }
    assert!(bytes.is_done());
    let mut bytes = Bytes::<MIXED>::new(b"1__2_");
    {
        let mut iter = bytes.exponent_iter();
        assert_eq!(iter.next(), Some(&b'1'));
        assert_eq!(iter.next(), Some(&b'2'));
        assert_eq!(iter.next(), Some(&b'_'));
    }
    let mut bytes = Bytes::<MIXED>::new(b"1_2");
    {
        let mut iter = bytes.special_iter();
        assert_eq!(iter.next(), Some(&b'1'));
        assert_eq!(iter.next(), Some(&b'_'));
    }
    let mut bytes = Bytes::<SPECIAL>::new(b"_N__a_N_");
    {
        let mut iter = bytes.special_iter();
        assert_eq!(iter.next(), Some(&b'N'));
        assert_eq!(iter.next(), Some(&b'a'));
        assert_eq!(iter.next(), Some(&b'N'));
        assert_eq!(iter.next(), None);
    }
    assert_eq!(section_syntax(MIXED, Section::Integer).separator, b'_');
    assert_eq!(section_syntax(MIXED, Section::Exponent).radix, 10);
    assert!(section_syntax(MIXED, Section::Exponent).rules.consecutive);
}

#[test]
fn skipping_zeros() {
    let mut bytes = Bytes::<STANDARD>::new(b"000120");
    {
        let mut iter = bytes.integer_iter();
        assert_eq!(iter.skip_zeros(), 3);
        assert_eq!(iter.peek(), Some(&b'1'));
        assert_eq!(iter.current_count(), 3);
        assert_eq!(iter.skip_zeros(), 0);
    }
    let mut bytes = Bytes::<I>::new(b"00_01");
    {
        let mut iter = bytes.integer_iter();
        assert_eq!(iter.skip_zeros(), 4);
        assert_eq!(iter.current_count(), 3);
        assert_eq!(iter.peek(), Some(&b'1'));
    }
    let mut bytes = Bytes::<I>::new(b"0_");
    {
        let mut iter = bytes.integer_iter();
        assert_eq!(iter.skip_zeros(), 1);
        assert_eq!(iter.peek(), Some(&b'_'));
    }
    let mut bytes = Bytes::<STANDARD>::new(b"000");
    {
        let mut iter = bytes.integer_iter();
        assert_eq!(iter.skip_zeros(), 3);
        assert!(iter.is_consumed());
    }
}

#[test]
fn matching_the_next_byte() {
    let mut bytes = Bytes::<I>::new(b"1_e5");
    let mut iter = bytes.integer_iter();
    assert!(iter.first_is_cased(b'1'));
    assert!(!iter.first_is_cased(b'2'));
    assert!(iter.peek_is_cased(b'1'));
    assert!(iter.peek_is(b'1', true));
    assert_eq!(iter.try_read(), Some(&b'1'));
    assert!(iter.first_is_cased(b'_'));
    assert!(iter.peek_is_cased(b'_'));
    iter.set_cursor(2);
    assert!(iter.first_is_cased(b'e'));
    assert!(iter.first_is_uncased(b'E'));
    assert!(!iter.first_is_cased(b'E'));
    assert!(iter.peek_is_uncased(b'E'));
    assert!(iter.peek_is(b'E', false));
    assert!(!iter.peek_is(b'E', true));
    assert!(!iter.peek_is_cased(b'E'));
    assert!(iter.is_digit(b'5'));
    assert!(!iter.is_digit(b'e'));
    assert!(iter.is_digit_separator(b'_'));
    assert!(!iter.is_digit_separator(b'e'));
    assert!(!iter.is_consumed());
    assert_eq!(iter.read_if(|c: &u8| *c == b'x'), None);
    assert_eq!(iter.cursor(), 2);
    assert_eq!(iter.read_if(|c: &u8| *c == b'e'), Some(&b'e'));
    assert_eq!(iter.cursor(), 3);
    assert_eq!(iter.try_read(), Some(&b'5'));
    assert_eq!(iter.try_read(), None);
    assert!(iter.is_consumed());
    assert!(!iter.peek_is_uncased(b'5'));
}

#[test]
fn stepping() {
    let mut bytes = Bytes::<STANDARD>::new(b"12345678");
    bytes.step_by_unchecked(3);
    assert_eq!(bytes.cursor(), 3);
    assert_eq!(bytes.current_count(), 3);
    bytes.step_unchecked();
    assert_eq!(bytes.as_slice(), b"5678");
    bytes.step_by_unchecked(0);
    bytes.set_cursor(1);
    assert_eq!(bytes.cursor(), 1);
    assert_eq!(bytes.current_count(), 1);
    let mut bytes = Bytes::<I>::new(b"1_2");
    bytes.step_by_unchecked(1);
    assert_eq!(bytes.cursor(), 1);
    assert_eq!(bytes.current_count(), 1);
    bytes.set_cursor(2);
    assert_eq!(bytes.current_count(), 1);
    bytes.step_unchecked();
    assert_eq!(bytes.current_count(), 2);
    assert!(bytes.is_done());
}

#[test]
fn reading_words() {
    let bytes = Bytes::<STANDARD>::new(b"12345678");
    assert_eq!(bytes.read_u32(), Some(u32::from_le_bytes(*b"1234")));
    assert_eq!(bytes.read_u64(), Some(u64::from_le_bytes(*b"12345678")));
    let mut bytes = Bytes::<STANDARD>::new(b"\xff\xfe\xfd\xfc\xfb");
    assert_eq!(bytes.read_u32(), Some(0xfcfdfeff));
    assert_eq!(bytes.read_u64(), None);
    bytes.step_unchecked();
    assert_eq!(bytes.read_u32(), Some(0xfbfcfdfe));
    bytes.step_unchecked();
    assert_eq!(bytes.read_u32(), None);
    let skipping = Bytes::<I>::new(b"12345678");
    assert_eq!(skipping.read_u32(), None);
    assert_eq!(skipping.read_u64(), None);
    let mut bytes = Bytes::<STANDARD>::new(b"12345678");
    let iter = DigitsIterator::new(&mut bytes, Section::Integer);
    assert_eq!(iter.read_u32(), Some(u32::from_le_bytes(*b"1234")));
}

#[test]
fn taking_bytes() {
    let mut bytes = Bytes::<STANDARD>::new(b"123456");
    {
        let mut iter = bytes.integer_iter();
        iter.next();
        let taken = iter.take_n(3).unwrap();
        assert_eq!(taken.get_buffer(), b"1234");
        assert_eq!(taken.cursor(), 1);
        assert_eq!(taken.as_slice(), b"234");
        assert_eq!(iter.cursor(), 4);
        let rest = iter.take_n(usize::MAX).unwrap();
        assert_eq!(rest.as_slice(), b"56");
        assert_eq!(iter.cursor(), 6);
        let none = iter.take_n(2).unwrap();
        assert!(none.is_done());
    }
    let mut bytes = Bytes::<I>::new(b"123456");
    let mut iter = bytes.integer_iter();
    assert!(iter.take_n(3).is_none());
    assert_eq!(iter.cursor(), 0);
}
