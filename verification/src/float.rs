//! Binary floating-point numbers as their bits.
//!
//! A float is held as the bit pattern of its IEEE-754 interchange format
//! and read through its three fields: the sign, the biased exponent and the
//! fraction. A finite float is `mantissa * 2^exponent`, negated where the
//! sign is set.

use vstd::prelude::*;

verus! {

/// The two widths of float.
#[derive(Clone, Copy, PartialEq, Eq, Structural, Debug)]
pub enum FloatKind {
    /// 32 bits: 8 of exponent, 23 of fraction.
    Binary32,
    /// 64 bits: 11 of exponent, 52 of fraction.
    Binary64,
}

impl FloatKind {
    /// The value of the bit that a normal float has above its fraction.
    pub open spec fn spec_hidden_bit(self) -> int {
        match self {
            FloatKind::Binary32 => 0x80_0000,
            FloatKind::Binary64 => 0x10_0000_0000_0000,
        }
    }

    /// The biased exponent of infinity and NaN, the largest there is.
    pub open spec fn spec_max_exponent(self) -> int {
        match self {
            FloatKind::Binary32 => 0xff,
            FloatKind::Binary64 => 0x7ff,
        }
    }

    /// What is subtracted from a biased exponent so that the mantissa
    /// counts as an integer: the bias plus the number of fraction bits.
    pub open spec fn spec_exponent_bias(self) -> int {
        match self {
            FloatKind::Binary32 => 150,
            FloatKind::Binary64 => 1075,
        }
    }
}

impl FloatKind {
    /// The value of the hidden bit.
    pub fn hidden_bit(&self) -> (hidden: u64)
        ensures
            hidden == self.spec_hidden_bit(),
    {
        match self {
            FloatKind::Binary32 => 0x80_0000,
            FloatKind::Binary64 => 0x10_0000_0000_0000,
        }
    }

    /// The biased exponent of infinity and NaN.
    pub fn max_exponent(&self) -> (max: u32)
        ensures
            max == self.spec_max_exponent(),
    {
        match self {
            FloatKind::Binary32 => 0xff,
            FloatKind::Binary64 => 0x7ff,
        }
    }

    /// The bits of infinity without its sign: the largest exponent over a
    /// fraction of zero.
    pub open spec fn spec_inf_bits(self) -> int {
        self.spec_max_exponent() * self.spec_hidden_bit()
    }

    /// The bits of infinity without its sign.
    pub fn inf_bits(&self) -> (bits: u64)
        ensures
            bits == self.spec_inf_bits(),
    {
        match self {
            FloatKind::Binary32 => 0x7f80_0000,
            FloatKind::Binary64 => 0x7ff0_0000_0000_0000,
        }
    }
}

/// The fields of a float.
#[derive(Clone, Copy, PartialEq, Eq, Structural, Debug)]
pub struct FloatParts {
    /// The width the fields were taken from.
    pub kind: FloatKind,
    /// Whether the sign bit is set.
    pub negative: bool,
    /// The exponent field.
    pub biased_exponent: u32,
    /// The fraction field.
    pub fraction: u64,
}

impl FloatParts {
    /// The fields fit the width: the fraction lies below the hidden bit and
    /// the exponent is not above the largest.
    pub open spec fn spec_wf(self) -> bool {
        &&& self.fraction < self.kind.spec_hidden_bit()
        &&& self.biased_exponent <= self.kind.spec_max_exponent()
    }

    /// Whether the float is infinity or NaN.
    pub open spec fn spec_is_special(self) -> bool {
        self.biased_exponent == self.kind.spec_max_exponent()
    }

    /// Whether the float is NaN.
    pub open spec fn spec_is_nan(self) -> bool {
        self.spec_is_special() && self.fraction != 0
    }

    /// Whether the float is infinity.
    pub open spec fn spec_is_inf(self) -> bool {
        self.spec_is_special() && self.fraction == 0
    }

    /// The mantissa as an integer: the fraction, with the hidden bit above
    /// it unless the float is zero or subnormal.
    pub open spec fn spec_mantissa(self) -> int {
        if self.biased_exponent == 0 {
            self.fraction as int
        } else {
            self.fraction + self.kind.spec_hidden_bit()
        }
    }

    /// The power of two that the mantissa is scaled by. Zero and the
    /// subnormal floats share the exponent of the smallest normal ones.
    pub open spec fn spec_exponent(self) -> int {
        if self.biased_exponent == 0 {
            1 - self.kind.spec_exponent_bias()
        } else {
            self.biased_exponent - self.kind.spec_exponent_bias()
        }
    }

    /// Tells whether the float is infinity or NaN.
    pub fn is_special(&self) -> (special: bool)
        ensures
            special == self.spec_is_special(),
    {
        match self.kind {
            FloatKind::Binary32 => self.biased_exponent == 0xff,
            FloatKind::Binary64 => self.biased_exponent == 0x7ff,
        }
    }

    /// Tells whether the float is NaN.
    pub fn is_nan(&self) -> (nan: bool)
        ensures
            nan == self.spec_is_nan(),
    {
        self.is_special() && self.fraction != 0
    }

    /// Tells whether the float is infinity.
    pub fn is_inf(&self) -> (inf: bool)
        ensures
            inf == self.spec_is_inf(),
    {
        self.is_special() && self.fraction == 0
    }

    /// The mantissa as an integer.
    pub fn mantissa(&self) -> (mantissa: u64)
        requires
            self.spec_wf(),
        ensures
            mantissa == self.spec_mantissa(),
            mantissa < 0x20_0000_0000_0000,
    {
        if self.biased_exponent == 0 {
            self.fraction
        } else {
            match self.kind {
                FloatKind::Binary32 => self.fraction + 0x80_0000,
                FloatKind::Binary64 => self.fraction + 0x10_0000_0000_0000,
            }
        }
    }

    /// The power of two that the mantissa is scaled by.
    pub fn exponent(&self) -> (exponent: i32)
        requires
            self.spec_wf(),
        ensures
            exponent == self.spec_exponent(),
            -1074 <= exponent <= 972,
    {
        let bias: i32 = match self.kind {
            FloatKind::Binary32 => 150,
            FloatKind::Binary64 => 1075,
        };
        if self.biased_exponent == 0 {
            1 - bias
        } else {
            self.biased_exponent as i32 - bias
        }
    }
}

/// A float that can be taken apart into its fields.
pub trait RawFloat: Copy {
    /// The fields of this float.
    spec fn spec_parts(self) -> FloatParts;

    /// Takes this float apart.
    fn parts(self) -> (parts: FloatParts)
        ensures
            parts == self.spec_parts(),
            parts.spec_wf(),
    ;
}

/// The bits of a 32-bit float.
#[derive(Clone, Copy, PartialEq, Eq, Structural, Debug)]
pub struct Float32 {
    pub bits: u32,
}

/// The bits of a 64-bit float.
#[derive(Clone, Copy, PartialEq, Eq, Structural, Debug)]
pub struct Float64 {
    pub bits: u64,
}

impl Float32 {
    /// The float with these bits.
    pub fn from_bits(bits: u32) -> (float: Float32)
        ensures
            float.bits == bits,
    {
        Float32 { bits }
    }
}

impl Float64 {
    /// The float with these bits.
    pub fn from_bits(bits: u64) -> (float: Float64)
        ensures
            float.bits == bits,
    {
        Float64 { bits }
    }
}

impl RawFloat for Float32 {
    /// The sign is the highest bit, the exponent the eight bits below it,
    /// the fraction the low 23 bits.
    open spec fn spec_parts(self) -> FloatParts {
        FloatParts {
            kind: FloatKind::Binary32,
            negative: self.bits >= 0x8000_0000,
            biased_exponent: ((self.bits / 0x80_0000) % 0x100) as u32,
            fraction: (self.bits % 0x80_0000) as u64,
        }
    }

    fn parts(self) -> (parts: FloatParts) {
        FloatParts {
            kind: FloatKind::Binary32,
            negative: self.bits >= 0x8000_0000,
            biased_exponent: (self.bits / 0x80_0000) % 0x100,
            fraction: (self.bits % 0x80_0000) as u64,
        }
    }
}

impl RawFloat for Float64 {
    /// The sign is the highest bit, the exponent the eleven bits below it,
    /// the fraction the low 52 bits.
    open spec fn spec_parts(self) -> FloatParts {
        FloatParts {
            kind: FloatKind::Binary64,
            negative: self.bits >= 0x8000_0000_0000_0000,
            biased_exponent: ((self.bits / 0x10_0000_0000_0000) % 0x800) as u32,
            fraction: (self.bits % 0x10_0000_0000_0000) as u64,
        }
    }

    fn parts(self) -> (parts: FloatParts) {
        FloatParts {
            kind: FloatKind::Binary64,
            negative: self.bits >= 0x8000_0000_0000_0000,
            biased_exponent: ((self.bits / 0x10_0000_0000_0000) % 0x800) as u32,
            fraction: self.bits % 0x10_0000_0000_0000,
        }
    }
}

/// The fields of a 64-bit float give its bits back: no two floats share
/// their fields.
pub proof fn lemma_parts_determine_bits(a: Float64, b: Float64)
    requires
        a.spec_parts() == b.spec_parts(),
    ensures
        a == b,
{
    let x = a.bits;
    let y = b.bits;
    assert(x == (x / 0x10_0000_0000_0000) * 0x10_0000_0000_0000 + x % 0x10_0000_0000_0000);
    assert(y == (y / 0x10_0000_0000_0000) * 0x10_0000_0000_0000 + y % 0x10_0000_0000_0000);
    let p = x / 0x10_0000_0000_0000;
    let q = y / 0x10_0000_0000_0000;
    assert(p == (p / 0x800) * 0x800 + p % 0x800);
    assert(q == (q / 0x800) * 0x800 + q % 0x800);
    assert(p / 0x800 <= 1);
    assert(q / 0x800 <= 1);
    assert((x >= 0x8000_0000_0000_0000) == (p / 0x800 == 1));
    assert((y >= 0x8000_0000_0000_0000) == (q / 0x800 == 1));
}

} // verus!
