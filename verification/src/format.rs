//! The packed description of a number's syntax.
//!
//! A format is one `u128`. Its low half holds the flags, its high half the
//! digit separator, the base prefix and suffix, and the three radices:
//!
//! | bits      | field                                   |
//! |-----------|-----------------------------------------|
//! | 0 - 16    | flags on digits, signs and the exponent |
//! | 32 - 47   | where a digit separator may stand       |
//! | 64 - 71   | digit separator, 0 for none             |
//! | 72 - 79   | base prefix, 0 for none                 |
//! | 80 - 87   | base suffix, 0 for none                 |
//! | 96 - 103  | radix of the mantissa                   |
//! | 104 - 111 | base of the exponent                    |
//! | 112 - 119 | radix of the exponent's digits          |

use crate::digit::{char_is_digit, spec_char_is_digit};
use vstd::prelude::*;

verus! {

/// Digits are required before the decimal point.
pub const REQUIRED_INTEGER_DIGITS: u128 = 0x1;

/// Digits are required after the decimal point, where there is one.
pub const REQUIRED_FRACTION_DIGITS: u128 = 0x2;

/// Digits are required after the exponent character, where there is one.
pub const REQUIRED_EXPONENT_DIGITS: u128 = 0x4;

/// The mantissa must carry a sign.
pub const REQUIRED_MANTISSA_SIGN: u128 = 0x8;

/// The exponent must carry a sign.
pub const REQUIRED_EXPONENT_SIGN: u128 = 0x10;

/// The number must have an exponent.
pub const REQUIRED_EXPONENT_NOTATION: u128 = 0x20;

/// The mantissa must not carry a `+`.
pub const NO_POSITIVE_MANTISSA_SIGN: u128 = 0x40;

/// The exponent must not carry a `+`.
pub const NO_POSITIVE_EXPONENT_SIGN: u128 = 0x80;

/// The number must not have an exponent.
pub const NO_EXPONENT_NOTATION: u128 = 0x100;

/// An exponent must not follow a mantissa without a fraction.
pub const NO_EXPONENT_WITHOUT_FRACTION: u128 = 0x200;

/// A fraction must not stand without integer digits before it.
pub const NO_FRACTION_WITHOUT_INTEGER: u128 = 0x400;

/// The base prefix is matched with its case.
pub const CASE_SENSITIVE_BASE_PREFIX: u128 = 0x800;

/// The base suffix is matched with its case.
pub const CASE_SENSITIVE_BASE_SUFFIX: u128 = 0x1000;

/// The literals of NaN and infinity are matched with their case.
pub const CASE_SENSITIVE_SPECIAL: u128 = 0x2000;

/// NaN and infinity are not read.
pub const NO_SPECIAL: u128 = 0x4000;

/// An integer must not start with a zero that is not its only digit.
pub const NO_INTEGER_LEADING_ZEROS: u128 = 0x8000;

/// A float's integer part must not start with a zero that is not its only
/// digit.
pub const NO_FLOAT_LEADING_ZEROS: u128 = 0x1_0000;

/// A separator may stand between two integer digits.
pub const INTEGER_INTERNAL_DIGIT_SEPARATOR: u128 = 0x1_0000_0000;

/// A separator may stand before the integer digits.
pub const INTEGER_LEADING_DIGIT_SEPARATOR: u128 = 0x2_0000_0000;

/// A separator may stand after the integer digits.
pub const INTEGER_TRAILING_DIGIT_SEPARATOR: u128 = 0x4_0000_0000;

/// Several separators may stand together among the integer digits.
pub const INTEGER_CONSECUTIVE_DIGIT_SEPARATOR: u128 = 0x8_0000_0000;

/// A separator may stand between two fraction digits.
pub const FRACTION_INTERNAL_DIGIT_SEPARATOR: u128 = 0x10_0000_0000;

/// A separator may stand before the fraction digits.
pub const FRACTION_LEADING_DIGIT_SEPARATOR: u128 = 0x20_0000_0000;

/// A separator may stand after the fraction digits.
pub const FRACTION_TRAILING_DIGIT_SEPARATOR: u128 = 0x40_0000_0000;

/// Several separators may stand together among the fraction digits.
pub const FRACTION_CONSECUTIVE_DIGIT_SEPARATOR: u128 = 0x80_0000_0000;

/// A separator may stand between two exponent digits.
pub const EXPONENT_INTERNAL_DIGIT_SEPARATOR: u128 = 0x100_0000_0000;

/// A separator may stand before the exponent digits.
pub const EXPONENT_LEADING_DIGIT_SEPARATOR: u128 = 0x200_0000_0000;

/// A separator may stand after the exponent digits.
pub const EXPONENT_TRAILING_DIGIT_SEPARATOR: u128 = 0x400_0000_0000;

/// Several separators may stand together among the exponent digits.
pub const EXPONENT_CONSECUTIVE_DIGIT_SEPARATOR: u128 = 0x800_0000_0000;

/// A separator may stand between two characters of a special literal.
pub const SPECIAL_INTERNAL_DIGIT_SEPARATOR: u128 = 0x1000_0000_0000;

/// A separator may stand before a special literal.
pub const SPECIAL_LEADING_DIGIT_SEPARATOR: u128 = 0x2000_0000_0000;

/// A separator may stand after a special literal.
pub const SPECIAL_TRAILING_DIGIT_SEPARATOR: u128 = 0x4000_0000_0000;

/// Several separators may stand together in a special literal.
pub const SPECIAL_CONSECUTIVE_DIGIT_SEPARATOR: u128 = 0x8000_0000_0000;

/// The value that, multiplied with a byte, puts it in the separator field.
pub const DIGIT_SEPARATOR_UNIT: u128 = 0x1_0000_0000_0000_0000;

/// The value that, multiplied with a byte, puts it in the base prefix field.
pub const BASE_PREFIX_UNIT: u128 = 0x100_0000_0000_0000_0000;

/// The value that, multiplied with a byte, puts it in the base suffix field.
pub const BASE_SUFFIX_UNIT: u128 = 0x1_0000_0000_0000_0000_0000;

/// The value that, multiplied with a radix, puts it in the mantissa radix
/// field.
pub const MANTISSA_RADIX_UNIT: u128 = 0x1_0000_0000_0000_0000_0000_0000;

/// The value that, multiplied with a base, puts it in the exponent base
/// field.
pub const EXPONENT_BASE_UNIT: u128 = 0x100_0000_0000_0000_0000_0000_0000;

/// The value that, multiplied with a radix, puts it in the exponent radix
/// field.
pub const EXPONENT_RADIX_UNIT: u128 = 0x1_0000_0000_0000_0000_0000_0000_0000;

/// Decimal numbers without separators: the three radices are 10 and
/// exponent digits are required.
pub const STANDARD: u128 = 0xa_0a0a_0000_0000_0000_0000_0000_0004;

/// One of the four parts of a number that digits are read from. Each has its
/// own rules on where a digit separator may stand.
#[derive(Clone, Copy, PartialEq, Eq, Structural, Debug)]
pub enum Section {
    Integer,
    Fraction,
    Exponent,
    Special,
}

/// Where a section lets a digit separator stand.
#[derive(Clone, Copy, PartialEq, Eq, Structural, Debug)]
pub struct SeparatorRules {
    /// Between two digits.
    pub internal: bool,
    /// Before the first digit.
    pub leading: bool,
    /// After the last digit.
    pub trailing: bool,
    /// Next to another separator.
    pub consecutive: bool,
}

impl SeparatorRules {
    /// Whether no position is open to a separator, so that the section's
    /// digits lie side by side.
    pub open spec fn spec_is_contiguous(self) -> bool {
        !self.internal && !self.leading && !self.trailing && !self.consecutive
    }

    /// Whether the rules can be met: separators may stand together only
    /// where one may stand at all.
    pub open spec fn spec_is_reachable(self) -> bool {
        self.consecutive ==> self.internal || self.leading || self.trailing
    }

    /// Tells whether no position is open to a separator.
    pub fn is_contiguous(&self) -> (r: bool)
        ensures
            r == self.spec_is_contiguous(),
    {
        !self.internal && !self.leading && !self.trailing && !self.consecutive
    }

    /// Tells whether the rules can be met.
    pub fn is_reachable(&self) -> (r: bool)
        ensures
            r == self.spec_is_reachable(),
    {
        !self.consecutive || self.internal || self.leading || self.trailing
    }
}

/// Whether a format has the flag `flag` set.
pub open spec fn spec_has_flag(format: u128, flag: u128) -> bool {
    format & flag != 0
}

/// The byte in the field whose lowest bit is `shift`.
pub open spec fn spec_field(format: u128, shift: u128) -> u8 {
    ((format >> shift) & 0xff) as u8
}

/// The digit separator, 0 where the format has none.
pub open spec fn spec_digit_separator(format: u128) -> u8 {
    spec_field(format, 64)
}

/// The base prefix, 0 where the format has none.
pub open spec fn spec_base_prefix(format: u128) -> u8 {
    spec_field(format, 72)
}

/// The base suffix, 0 where the format has none.
pub open spec fn spec_base_suffix(format: u128) -> u8 {
    spec_field(format, 80)
}

/// The radix of the mantissa's digits.
pub open spec fn spec_mantissa_radix(format: u128) -> u32 {
    spec_field(format, 96) as u32
}

/// The base that the exponent raises.
pub open spec fn spec_exponent_base(format: u128) -> u32 {
    spec_field(format, 104) as u32
}

/// The radix of the exponent's digits.
pub open spec fn spec_exponent_radix(format: u128) -> u32 {
    spec_field(format, 112) as u32
}

/// The rules of a section on digit separators.
pub open spec fn spec_separator_rules(format: u128, section: Section) -> SeparatorRules {
    match section {
        Section::Integer => SeparatorRules {
            internal: spec_has_flag(format, INTEGER_INTERNAL_DIGIT_SEPARATOR),
            leading: spec_has_flag(format, INTEGER_LEADING_DIGIT_SEPARATOR),
            trailing: spec_has_flag(format, INTEGER_TRAILING_DIGIT_SEPARATOR),
            consecutive: spec_has_flag(format, INTEGER_CONSECUTIVE_DIGIT_SEPARATOR),
        },
        Section::Fraction => SeparatorRules {
            internal: spec_has_flag(format, FRACTION_INTERNAL_DIGIT_SEPARATOR),
            leading: spec_has_flag(format, FRACTION_LEADING_DIGIT_SEPARATOR),
            trailing: spec_has_flag(format, FRACTION_TRAILING_DIGIT_SEPARATOR),
            consecutive: spec_has_flag(format, FRACTION_CONSECUTIVE_DIGIT_SEPARATOR),
        },
        Section::Exponent => SeparatorRules {
            internal: spec_has_flag(format, EXPONENT_INTERNAL_DIGIT_SEPARATOR),
            leading: spec_has_flag(format, EXPONENT_LEADING_DIGIT_SEPARATOR),
            trailing: spec_has_flag(format, EXPONENT_TRAILING_DIGIT_SEPARATOR),
            consecutive: spec_has_flag(format, EXPONENT_CONSECUTIVE_DIGIT_SEPARATOR),
        },
        Section::Special => SeparatorRules {
            internal: spec_has_flag(format, SPECIAL_INTERNAL_DIGIT_SEPARATOR),
            leading: spec_has_flag(format, SPECIAL_LEADING_DIGIT_SEPARATOR),
            trailing: spec_has_flag(format, SPECIAL_TRAILING_DIGIT_SEPARATOR),
            consecutive: spec_has_flag(format, SPECIAL_CONSECUTIVE_DIGIT_SEPARATOR),
        },
    }
}

/// Whether a byte can serve as punctuation beside digits of `radix`: it is
/// ASCII, no digit of the radix, no sign, and not the decimal point.
pub open spec fn spec_is_punctuation(c: u8, radix: u32) -> bool {
    &&& 0 < c < 128
    &&& !spec_char_is_digit(c, radix as int)
    &&& c != 43
    &&& c != 45
    &&& c != 46
}

/// The exponent character that a radix is written with unless the options
/// say otherwise: `e` up to radix 10, `^` above it.
pub open spec fn spec_default_exponent(radix: u32) -> u8 {
    if radix <= 10 {
        101
    } else {
        94
    }
}

/// Whether a format describes a syntax at all.
///
/// The three radices lie between 2 and 36. The separator, the base prefix
/// and the base suffix are each absent or punctuation, and the separator is
/// neither of the other two nor the default exponent character. No flag
/// contradicts another, and in no section may separators stand together
/// without a position where one may stand.
pub open spec fn spec_is_valid(format: u128) -> bool {
    let radix = spec_mantissa_radix(format);
    let separator = spec_digit_separator(format);
    let prefix = spec_base_prefix(format);
    let suffix = spec_base_suffix(format);
    &&& 2 <= radix <= 36
    &&& 2 <= spec_exponent_base(format) <= 36
    &&& 2 <= spec_exponent_radix(format) <= 36
    &&& separator != 0 ==> {
        &&& spec_is_punctuation(separator, radix)
        &&& !spec_char_is_digit(separator, spec_exponent_radix(format) as int)
        &&& separator != spec_default_exponent(radix)
        &&& separator != prefix
        &&& separator != suffix
    }
    &&& prefix != 0 ==> spec_is_punctuation(prefix, 10)
    &&& suffix != 0 ==> spec_is_punctuation(suffix, 10)
    &&& !(spec_has_flag(format, REQUIRED_EXPONENT_NOTATION) && spec_has_flag(
        format,
        NO_EXPONENT_NOTATION,
    ))
    &&& !(spec_has_flag(format, REQUIRED_MANTISSA_SIGN) && spec_has_flag(
        format,
        NO_POSITIVE_MANTISSA_SIGN,
    ))
    &&& !(spec_has_flag(format, REQUIRED_EXPONENT_SIGN) && spec_has_flag(
        format,
        NO_POSITIVE_EXPONENT_SIGN,
    ))
    &&& spec_has_flag(format, NO_SPECIAL) ==> {
        &&& !spec_has_flag(format, CASE_SENSITIVE_SPECIAL)
        &&& spec_separator_rules(format, Section::Special).spec_is_contiguous()
    }
    &&& spec_separator_rules(format, Section::Integer).spec_is_reachable()
    &&& spec_separator_rules(format, Section::Fraction).spec_is_reachable()
    &&& spec_separator_rules(format, Section::Exponent).spec_is_reachable()
    &&& spec_separator_rules(format, Section::Special).spec_is_reachable()
}

/// The sign that a number is written with: `-` where its sign bit is set,
/// `+` where it is not and the format requires a sign, else nothing.
pub open spec fn spec_sign_text(negative: bool, format: u128) -> Seq<u8> {
    if negative {
        seq![45u8]
    } else if spec_has_flag(format, REQUIRED_MANTISSA_SIGN) {
        seq![43u8]
    } else {
        Seq::empty()
    }
}

/// Tells whether a format has a flag set.
pub fn has_flag(format: u128, flag: u128) -> (r: bool)
    ensures
        r == spec_has_flag(format, flag),
{
    format & flag != 0
}

/// Reads the byte of a format whose lowest bit is `shift`.
fn field(format: u128, shift: u128) -> (r: u8)
    requires
        shift < 128,
    ensures
        r == spec_field(format, shift),
{
    let wide: u128 = (format >> shift) & 0xff;
    assert(wide < 256) by (bit_vector)
        requires
            wide == (format >> shift) & 0xff,
    ;
    wide as u8
}

/// The digit separator of a format, 0 where it has none.
pub fn digit_separator(format: u128) -> (r: u8)
    ensures
        r == spec_digit_separator(format),
{
    field(format, 64)
}

/// The base prefix of a format, 0 where it has none.
pub fn base_prefix(format: u128) -> (r: u8)
    ensures
        r == spec_base_prefix(format),
{
    field(format, 72)
}

/// The base suffix of a format, 0 where it has none.
pub fn base_suffix(format: u128) -> (r: u8)
    ensures
        r == spec_base_suffix(format),
{
    field(format, 80)
}

/// The radix of a format's mantissa digits.
pub fn mantissa_radix(format: u128) -> (r: u32)
    ensures
        r == spec_mantissa_radix(format),
        r < 256,
{
    field(format, 96) as u32
}

/// The base that a format's exponent raises.
pub fn exponent_base(format: u128) -> (r: u32)
    ensures
        r == spec_exponent_base(format),
        r < 256,
{
    field(format, 104) as u32
}

/// The radix of a format's exponent digits.
pub fn exponent_radix(format: u128) -> (r: u32)
    ensures
        r == spec_exponent_radix(format),
        r < 256,
{
    field(format, 112) as u32
}

/// The rules of a section of a format on digit separators.
pub fn separator_rules(format: u128, section: Section) -> (r: SeparatorRules)
    ensures
        r == spec_separator_rules(format, section),
{
    match section {
        Section::Integer => SeparatorRules {
            internal: has_flag(format, INTEGER_INTERNAL_DIGIT_SEPARATOR),
            leading: has_flag(format, INTEGER_LEADING_DIGIT_SEPARATOR),
            trailing: has_flag(format, INTEGER_TRAILING_DIGIT_SEPARATOR),
            consecutive: has_flag(format, INTEGER_CONSECUTIVE_DIGIT_SEPARATOR),
        },
        Section::Fraction => SeparatorRules {
            internal: has_flag(format, FRACTION_INTERNAL_DIGIT_SEPARATOR),
            leading: has_flag(format, FRACTION_LEADING_DIGIT_SEPARATOR),
            trailing: has_flag(format, FRACTION_TRAILING_DIGIT_SEPARATOR),
            consecutive: has_flag(format, FRACTION_CONSECUTIVE_DIGIT_SEPARATOR),
        },
        Section::Exponent => SeparatorRules {
            internal: has_flag(format, EXPONENT_INTERNAL_DIGIT_SEPARATOR),
            leading: has_flag(format, EXPONENT_LEADING_DIGIT_SEPARATOR),
            trailing: has_flag(format, EXPONENT_TRAILING_DIGIT_SEPARATOR),
            consecutive: has_flag(format, EXPONENT_CONSECUTIVE_DIGIT_SEPARATOR),
        },
        Section::Special => SeparatorRules {
            internal: has_flag(format, SPECIAL_INTERNAL_DIGIT_SEPARATOR),
            leading: has_flag(format, SPECIAL_LEADING_DIGIT_SEPARATOR),
            trailing: has_flag(format, SPECIAL_TRAILING_DIGIT_SEPARATOR),
            consecutive: has_flag(format, SPECIAL_CONSECUTIVE_DIGIT_SEPARATOR),
        },
    }
}

/// Tells whether a byte can serve as punctuation beside digits of `radix`.
pub fn is_punctuation(c: u8, radix: u32) -> (r: bool)
    ensures
        r == spec_is_punctuation(c, radix),
{
    c > 0 && c < 128 && !char_is_digit(c, radix) && c != 43 && c != 45 && c != 46
}

/// The exponent character a radix is written with by default.
pub fn default_exponent(radix: u32) -> (r: u8)
    ensures
        r == spec_default_exponent(radix),
{
    if radix <= 10 {
        101
    } else {
        94
    }
}

/// Tells whether a format describes a syntax at all.
pub fn is_valid(format: u128) -> (r: bool)
    ensures
        r == spec_is_valid(format),
{
    let radix = mantissa_radix(format);
    let base = exponent_base(format);
    let exp_radix = exponent_radix(format);
    let separator = digit_separator(format);
    let prefix = base_prefix(format);
    let suffix = base_suffix(format);
    if radix < 2 || radix > 36 || base < 2 || base > 36 || exp_radix < 2 || exp_radix > 36 {
        return false;
    }
    if separator != 0 {
        if !is_punctuation(separator, radix) || char_is_digit(separator, exp_radix) || separator
            == default_exponent(radix) || separator == prefix || separator == suffix {
            return false;
        }
    }
    if prefix != 0 && !is_punctuation(prefix, 10) {
        return false;
    }
    if suffix != 0 && !is_punctuation(suffix, 10) {
        return false;
    }
    if has_flag(format, REQUIRED_EXPONENT_NOTATION) && has_flag(format, NO_EXPONENT_NOTATION) {
        return false;
    }
    if has_flag(format, REQUIRED_MANTISSA_SIGN) && has_flag(format, NO_POSITIVE_MANTISSA_SIGN) {
        return false;
    }
    if has_flag(format, REQUIRED_EXPONENT_SIGN) && has_flag(format, NO_POSITIVE_EXPONENT_SIGN) {
        return false;
    }
    let special = separator_rules(format, Section::Special);
    if has_flag(format, NO_SPECIAL) && (has_flag(format, CASE_SENSITIVE_SPECIAL)
        || !special.is_contiguous()) {
        return false;
    }
    separator_rules(format, Section::Integer).is_reachable() && separator_rules(
        format,
        Section::Fraction,
    ).is_reachable() && separator_rules(format, Section::Exponent).is_reachable()
        && special.is_reachable()
}

/// The standard format is valid. Its radices are 10, it has no separator,
/// no base prefix and no base suffix, and of all flags only the one that
/// requires exponent digits is set.
pub proof fn lemma_standard_format()
    ensures
        spec_is_valid(STANDARD),
        spec_mantissa_radix(STANDARD) == 10,
        spec_exponent_base(STANDARD) == 10,
        spec_exponent_radix(STANDARD) == 10,
        spec_digit_separator(STANDARD) == 0,
        spec_base_prefix(STANDARD) == 0,
        spec_base_suffix(STANDARD) == 0,
        forall|flag: u128|
            flag < DIGIT_SEPARATOR_UNIT ==> #[trigger] spec_has_flag(STANDARD, flag) == (flag
                & REQUIRED_EXPONENT_DIGITS != 0),
        spec_has_flag(STANDARD, REQUIRED_EXPONENT_DIGITS),
        !spec_has_flag(STANDARD, REQUIRED_INTEGER_DIGITS),
        !spec_has_flag(STANDARD, REQUIRED_FRACTION_DIGITS),
        !spec_has_flag(STANDARD, REQUIRED_MANTISSA_SIGN),
        !spec_has_flag(STANDARD, REQUIRED_EXPONENT_SIGN),
        !spec_has_flag(STANDARD, REQUIRED_EXPONENT_NOTATION),
        !spec_has_flag(STANDARD, NO_POSITIVE_MANTISSA_SIGN),
        !spec_has_flag(STANDARD, NO_POSITIVE_EXPONENT_SIGN),
        !spec_has_flag(STANDARD, NO_EXPONENT_NOTATION),
        !spec_has_flag(STANDARD, NO_EXPONENT_WITHOUT_FRACTION),
        !spec_has_flag(STANDARD, NO_FRACTION_WITHOUT_INTEGER),
        !spec_has_flag(STANDARD, CASE_SENSITIVE_BASE_PREFIX),
        !spec_has_flag(STANDARD, CASE_SENSITIVE_BASE_SUFFIX),
        !spec_has_flag(STANDARD, CASE_SENSITIVE_SPECIAL),
        !spec_has_flag(STANDARD, NO_SPECIAL),
        !spec_has_flag(STANDARD, NO_INTEGER_LEADING_ZEROS),
        !spec_has_flag(STANDARD, NO_FLOAT_LEADING_ZEROS),
        forall|section: Section| #[trigger]
            spec_separator_rules(STANDARD, section) == (SeparatorRules {
                internal: false,
                leading: false,
                trailing: false,
                consecutive: false,
            }),
{
    let format: u128 = STANDARD;
    assert((format >> 96u128) & 0xff == 10 && (format >> 104u128) & 0xff == 10 && (format
        >> 112u128) & 0xff == 10 && (format >> 64u128) & 0xff == 0 && (format >> 72u128) & 0xff
        == 0 && (format >> 80u128) & 0xff == 0) by (bit_vector)
        requires
            format == 0xa_0a0a_0000_0000_0000_0000_0000_0004u128,
    ;
    assert forall|flag: u128| flag < DIGIT_SEPARATOR_UNIT implies #[trigger] spec_has_flag(
        STANDARD,
        flag,
    ) == (flag & REQUIRED_EXPONENT_DIGITS != 0) by {
        assert((format & flag != 0) == (flag & 0x4 != 0)) by (bit_vector)
            requires
                format == 0xa_0a0a_0000_0000_0000_0000_0000_0004u128,
                flag < 0x1_0000_0000_0000_0000u128,
        ;
    }
    assert(0x1u128 & 0x4 == 0 && 0x2u128 & 0x4 == 0 && 0x8u128 & 0x4 == 0 && 0x10u128 & 0x4 == 0
        && 0x20u128 & 0x4 == 0 && 0x40u128 & 0x4 == 0 && 0x80u128 & 0x4 == 0 && 0x100u128 & 0x4
        == 0 && 0x4000u128 & 0x4 == 0 && 0x2000u128 & 0x4 == 0) by (bit_vector);
    assert(0x4u128 & 0x4 != 0 && 0x200u128 & 0x4 == 0 && 0x400u128 & 0x4 == 0 && 0x800u128 & 0x4
        == 0 && 0x1000u128 & 0x4 == 0 && 0x8000u128 & 0x4 == 0 && 0x1_0000u128 & 0x4 == 0)
        by (bit_vector);
    assert(0x1_0000_0000u128 & 0x4 == 0 && 0x2_0000_0000u128 & 0x4 == 0 && 0x4_0000_0000u128
        & 0x4 == 0 && 0x8_0000_0000u128 & 0x4 == 0 && 0x10_0000_0000u128 & 0x4 == 0
        && 0x20_0000_0000u128 & 0x4 == 0 && 0x40_0000_0000u128 & 0x4 == 0 && 0x80_0000_0000u128
        & 0x4 == 0) by (bit_vector);
    assert(0x100_0000_0000u128 & 0x4 == 0 && 0x200_0000_0000u128 & 0x4 == 0
        && 0x400_0000_0000u128 & 0x4 == 0 && 0x800_0000_0000u128 & 0x4 == 0
        && 0x1000_0000_0000u128 & 0x4 == 0 && 0x2000_0000_0000u128 & 0x4 == 0
        && 0x4000_0000_0000u128 & 0x4 == 0 && 0x8000_0000_0000u128 & 0x4 == 0) by (bit_vector);
}

} // verus!
