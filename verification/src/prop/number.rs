//! Numbers, held by the bit pattern of their IEEE 754 double.

use vstd::prelude::*;

verus! {

/// The bound of the magnitude bits: everything but the sign.
pub const SIGN: u64 = 0x8000_0000_0000_0000;

/// The magnitude bits of positive infinity; a larger magnitude is no number.
pub const INFINITY: u64 = 0x7ff0_0000_0000_0000;

/// Whether the bit pattern is a NaN.
pub open spec fn bits_nan(bits: u64) -> bool {
    bits % SIGN > INFINITY
}

/// Whether the bit pattern is one of the two zeros.
pub open spec fn bits_zero(bits: u64) -> bool {
    bits % SIGN == 0
}

/// IEEE 754 equality on bit patterns: a NaN equals nothing, the two zeros
/// equal each other, and any other number equals only itself.
pub open spec fn number_eq(a: u64, b: u64) -> bool {
    !bits_nan(a) && !bits_nan(b) && (a == b || (bits_zero(a) && bits_zero(b)))
}

/// A double-precision number.
#[derive(Clone, Copy, Debug)]
pub struct Number {
    bits: u64,
}

impl Number {
    /// The bit pattern.
    pub closed spec fn view(self) -> u64 {
        self.bits
    }

    pub fn from_bits(bits: u64) -> (n: Self)
        ensures
            n@ == bits,
    {
        Number { bits }
    }

    pub fn to_bits(&self) -> (bits: u64)
        ensures
            bits == self@,
    {
        self.bits
    }

    pub fn is_nan(&self) -> (b: bool)
        ensures
            b == bits_nan(self@),
    {
        self.bits % SIGN > INFINITY
    }

    pub fn is_zero(&self) -> (b: bool)
        ensures
            b == bits_zero(self@),
    {
        self.bits % SIGN == 0
    }

    /// Numeric equality.
    pub fn same(&self, other: &Number) -> (b: bool)
        ensures
            b == number_eq(self@, other@),
    {
        !self.is_nan() && !other.is_nan() && (self.bits == other.bits || (self.is_zero()
            && other.is_zero()))
    }
}

} // verus!
