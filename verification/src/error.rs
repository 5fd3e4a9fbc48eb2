//! Why a number could not be read.

use vstd::prelude::*;

verus! {

/// The reasons for which reading a number fails. Where a reason belongs to
/// a place in the input, it carries the index of the byte at which it was
/// found.
#[derive(Clone, Copy, PartialEq, Eq, Structural, Debug)]
pub enum Error {
    /// The input holds nothing to read.
    Empty,
    /// A float has no digit in its mantissa.
    EmptyMantissa,
    /// An exponent character is followed by no digit.
    EmptyExponent,
    /// A float has no digit before its decimal point.
    EmptyInteger,
    /// A float has no digit after its decimal point.
    EmptyFraction,
    /// A byte that is no digit stands where one is needed.
    InvalidDigit(usize),
    /// The number is above the largest value of its type.
    Overflow(usize),
    /// The number is below the smallest value of its type.
    Underflow(usize),
    /// The mantissa starts with a `+` that the format forbids.
    InvalidPositiveMantissaSign(usize),
    /// The mantissa has no sign, and the format requires one.
    MissingMantissaSign(usize),
    /// The exponent starts with a `+` that the format forbids.
    InvalidPositiveExponentSign(usize),
    /// The exponent has no sign, and the format requires one.
    MissingExponentSign(usize),
    /// An exponent follows a mantissa without a fraction, which the format
    /// forbids.
    ExponentWithoutFraction(usize),
    /// The number starts with a zero that is not its only digit, which the
    /// format forbids.
    InvalidLeadingZeros(usize),
}

impl Error {
    /// The index that the error carries, if it carries one.
    pub open spec fn spec_index(self) -> Option<usize> {
        match self {
            Error::Empty => None,
            Error::EmptyMantissa => None,
            Error::EmptyExponent => None,
            Error::EmptyInteger => None,
            Error::EmptyFraction => None,
            Error::InvalidDigit(index) => Some(index),
            Error::Overflow(index) => Some(index),
            Error::Underflow(index) => Some(index),
            Error::InvalidPositiveMantissaSign(index) => Some(index),
            Error::MissingMantissaSign(index) => Some(index),
            Error::InvalidPositiveExponentSign(index) => Some(index),
            Error::MissingExponentSign(index) => Some(index),
            Error::ExponentWithoutFraction(index) => Some(index),
            Error::InvalidLeadingZeros(index) => Some(index),
        }
    }

    /// Whether two errors give the same reason, whatever their indices.
    pub open spec fn spec_same_kind(self, other: Error) -> bool {
        match (self, other) {
            (Error::Empty, Error::Empty) => true,
            (Error::EmptyMantissa, Error::EmptyMantissa) => true,
            (Error::EmptyExponent, Error::EmptyExponent) => true,
            (Error::EmptyInteger, Error::EmptyInteger) => true,
            (Error::EmptyFraction, Error::EmptyFraction) => true,
            (Error::InvalidDigit(_), Error::InvalidDigit(_)) => true,
            (Error::Overflow(_), Error::Overflow(_)) => true,
            (Error::Underflow(_), Error::Underflow(_)) => true,
            (Error::InvalidPositiveMantissaSign(_), Error::InvalidPositiveMantissaSign(_)) => true,
            (Error::MissingMantissaSign(_), Error::MissingMantissaSign(_)) => true,
            (Error::InvalidPositiveExponentSign(_), Error::InvalidPositiveExponentSign(_)) => true,
            (Error::MissingExponentSign(_), Error::MissingExponentSign(_)) => true,
            (Error::ExponentWithoutFraction(_), Error::ExponentWithoutFraction(_)) => true,
            (Error::InvalidLeadingZeros(_), Error::InvalidLeadingZeros(_)) => true,
            _ => false,
        }
    }

    /// The index of the byte at which the error was found, if it belongs to
    /// a place in the input.
    pub fn index(&self) -> (index: Option<usize>)
        ensures
            index == self.spec_index(),
    {
        match self {
            Error::Empty => None,
            Error::EmptyMantissa => None,
            Error::EmptyExponent => None,
            Error::EmptyInteger => None,
            Error::EmptyFraction => None,
            Error::InvalidDigit(index) => Some(*index),
            Error::Overflow(index) => Some(*index),
            Error::Underflow(index) => Some(*index),
            Error::InvalidPositiveMantissaSign(index) => Some(*index),
            Error::MissingMantissaSign(index) => Some(*index),
            Error::InvalidPositiveExponentSign(index) => Some(*index),
            Error::MissingExponentSign(index) => Some(*index),
            Error::ExponentWithoutFraction(index) => Some(*index),
            Error::InvalidLeadingZeros(index) => Some(*index),
        }
    }
}

} // verus!
