//! The settings of a float writer that do not change which algorithm runs.

use crate::format::{default_exponent, spec_default_exponent};
use vstd::prelude::*;

verus! {

/// The longest literal that NaN or infinity may be written as.
pub const MAX_SPECIAL_STRING_LENGTH: usize = 50;

/// How a float is laid out as text.
#[derive(Clone, Copy, Debug)]
pub struct Options {
    /// The byte between the integer and the fraction digits.
    pub decimal_point: u8,
    /// The byte before the exponent.
    pub exponent: u8,
    /// What NaN is written as; `None` where it must not be written.
    pub nan_string: Option<&'static [u8]>,
    /// What infinity is written as; `None` where it must not be written.
    pub inf_string: Option<&'static [u8]>,
    /// The most significant digits to write, the rest being rounded off.
    pub max_significant_digits: Option<usize>,
    /// The fewest significant digits to write, zeros being added.
    pub min_significant_digits: Option<usize>,
    /// Scientific exponents below this are written in scientific notation.
    pub negative_exponent_break: i32,
    /// Scientific exponents above this are written in scientific notation.
    pub positive_exponent_break: i32,
    /// Whether a float without a fraction is written without `.0`.
    pub trim_floats: bool,
}

impl Options {
    /// Whether the options can be used: both digit limits are positive, the
    /// upper one is not below the lower one, the special literals are not
    /// longer than 50 bytes, the exponent breaks lie on their sides of zero,
    /// and the decimal point is not the exponent character.
    pub open spec fn spec_is_valid(&self) -> bool {
        &&& self.max_significant_digits matches Some(max) ==> max > 0
        &&& self.min_significant_digits matches Some(min) ==> min > 0
        &&& self.max_significant_digits matches Some(max) ==> (
        self.min_significant_digits matches Some(min) ==> min <= max)
        &&& self.nan_string matches Some(nan) ==> nan@.len() <= MAX_SPECIAL_STRING_LENGTH
        &&& self.inf_string matches Some(inf) ==> inf@.len() <= MAX_SPECIAL_STRING_LENGTH
        &&& self.negative_exponent_break <= 0 <= self.positive_exponent_break
        &&& self.decimal_point != self.exponent
    }

    /// The fewest significant digits to write, 0 where none are asked for.
    pub open spec fn spec_min_digits(&self) -> nat {
        match self.min_significant_digits {
            Some(min) => min as nat,
            None => 0,
        }
    }

    /// Whether these are the options that numbers of `radix` are written
    /// with by default: `.` as the decimal point, `e` as the exponent
    /// character up to radix 10 and `^` above, `NaN` and `inf`, no limit on
    /// the digits, scientific notation below an exponent of -5 and above
    /// one of 9, and `.0` kept.
    pub open spec fn spec_is_default(&self, radix: u32) -> bool {
        &&& self.decimal_point == 46
        &&& self.exponent == spec_default_exponent(radix)
        &&& self.nan_string matches Some(nan) && nan@ == seq![78u8, 97u8, 78u8]
        &&& self.inf_string matches Some(inf) && inf@ == seq![105u8, 110u8, 102u8]
        &&& self.max_significant_digits is None
        &&& self.min_significant_digits is None
        &&& self.negative_exponent_break == -5
        &&& self.positive_exponent_break == 9
        &&& !self.trim_floats
    }

    /// The default options of numbers of `radix`.
    pub fn from_radix(radix: u32) -> (options: Options)
        ensures
            options.spec_is_default(radix),
            options.spec_is_valid(),
    {
        let nan: &'static [u8] = &[78u8, 97u8, 78u8];
        let inf: &'static [u8] = &[105u8, 110u8, 102u8];
        Options {
            decimal_point: 46,
            exponent: default_exponent(radix),
            nan_string: Some(nan),
            inf_string: Some(inf),
            max_significant_digits: None,
            min_significant_digits: None,
            negative_exponent_break: -5,
            positive_exponent_break: 9,
            trim_floats: false,
        }
    }

    /// Tells whether the options can be used.
    pub fn is_valid(&self) -> (valid: bool)
        ensures
            valid == self.spec_is_valid(),
    {
        let max_ok = match self.max_significant_digits {
            Some(max) => max > 0 && match self.min_significant_digits {
                Some(min) => min <= max,
                None => true,
            },
            None => true,
        };
        let min_ok = match self.min_significant_digits {
            Some(min) => min > 0,
            None => true,
        };
        let nan_ok = match self.nan_string {
            Some(nan) => nan.len() <= MAX_SPECIAL_STRING_LENGTH,
            None => true,
        };
        let inf_ok = match self.inf_string {
            Some(inf) => inf.len() <= MAX_SPECIAL_STRING_LENGTH,
            None => true,
        };
        max_ok && min_ok && nan_ok && inf_ok && self.negative_exponent_break <= 0
            && self.positive_exponent_break >= 0 && self.decimal_point != self.exponent
    }
}

/// How a float is read from text.
#[derive(Clone, Copy, Debug)]
pub struct ParseOptions {
    /// The byte between the integer and the fraction digits.
    pub decimal_point: u8,
    /// The byte before the exponent, matched without its case.
    pub exponent: u8,
    /// What is read as NaN; `None` where nothing is.
    pub nan_string: Option<&'static [u8]>,
    /// What is read as infinity; `None` where nothing is.
    pub inf_string: Option<&'static [u8]>,
    /// Whether a number beyond all floats is read as infinity, and one
    /// nearer to zero than to any other float as zero, instead of failing.
    pub lossy: bool,
}

impl ParseOptions {
    /// Whether these are the options that numbers of `radix` are read with
    /// by default: `.`, `e` up to radix 10 and `^` above, `NaN`, `inf`, and
    /// failure for numbers out of range.
    pub open spec fn spec_is_default(&self, radix: u32) -> bool {
        &&& self.decimal_point == 46
        &&& self.exponent == spec_default_exponent(radix)
        &&& self.nan_string matches Some(nan) && nan@ == seq![78u8, 97u8, 78u8]
        &&& self.inf_string matches Some(inf) && inf@ == seq![105u8, 110u8, 102u8]
        &&& !self.lossy
    }

    /// The default options of numbers of `radix`.
    pub fn from_radix(radix: u32) -> (options: ParseOptions)
        ensures
            options.spec_is_default(radix),
    {
        let nan: &'static [u8] = &[78u8, 97u8, 78u8];
        let inf: &'static [u8] = &[105u8, 110u8, 102u8];
        ParseOptions {
            decimal_point: 46,
            exponent: default_exponent(radix),
            nan_string: Some(nan),
            inf_string: Some(inf),
            lossy: false,
        }
    }
}

impl Default for ParseOptions {
    /// The default options of decimal numbers.
    fn default() -> (options: ParseOptions)
        ensures
            options.spec_is_default(10),
    {
        ParseOptions::from_radix(10)
    }
}

impl Default for Options {
    /// The default options of decimal numbers.
    fn default() -> (options: Options)
        ensures
            options.spec_is_default(10),
            options.spec_is_valid(),
    {
        Options::from_radix(10)
    }
}

} // verus!
