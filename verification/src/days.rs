//! Lengths of time in days, carried as single-precision bit patterns.
use vstd::prelude::*;

verus! {

/// A length of time in days.
///
/// The value is a single-precision floating-point number; the library keeps
/// it as its IEEE-754 binary32 bit pattern, so that it can carry, order and
/// sign-test the value without floating-point arithmetic.  Sums and decimal
/// renderings of these values are made where floating point is available.
#[derive(Debug, Clone, Copy, PartialEq, Eq, Structural)]
pub struct Days {
    pub bits: u32,
}

/// The bit pattern of positive zero.
pub const ZERO_BITS: u32 = 0u32;

/// The bit pattern of positive infinity; larger magnitudes are NaNs.
pub const INFINITY_BITS: u32 = 0x7f80_0000u32;

/// The sign bit.
pub const SIGN_BIT: u32 = 0x8000_0000u32;

impl Days {
    /// The magnitude bits: the pattern without its sign bit.
    pub open spec fn magnitude_of(self) -> u32 {
        (self.bits % SIGN_BIT) as u32
    }

    pub open spec fn sign_of(self) -> bool {
        self.bits >= SIGN_BIT
    }

    /// Whether the value is a NaN: all exponent bits set and a non-zero fraction.
    pub open spec fn is_nan_of(self) -> bool {
        self.magnitude_of() > INFINITY_BITS
    }

    /// Whether the value compares below zero: a set sign bit on a non-zero
    /// magnitude that is not a NaN (so `-0.0` is not negative).
    pub open spec fn is_negative_of(self) -> bool {
        self.sign_of() && 0 < self.magnitude_of() <= INFINITY_BITS
    }

    /// The larger of the value and zero: zero for a NaN or a value with its
    /// sign bit set (including `-0.0`), the value itself otherwise.
    pub open spec fn clamp_of(self) -> Days {
        if self.sign_of() || self.is_nan_of() {
            Days { bits: ZERO_BITS }
        } else {
            self
        }
    }

    pub fn from_bits(bits: u32) -> (d: Days)
        ensures
            d.bits == bits,
    {
        Days { bits }
    }

    pub fn to_bits(self) -> (b: u32)
        ensures
            b == self.bits,
    {
        self.bits
    }

    pub fn zero() -> (d: Days)
        ensures
            d.bits == ZERO_BITS,
    {
        Days { bits: ZERO_BITS }
    }

    pub fn is_nan(self) -> (b: bool)
        ensures
            b == self.is_nan_of(),
    {
        self.bits % SIGN_BIT > INFINITY_BITS
    }

    pub fn is_negative(self) -> (b: bool)
        ensures
            b == self.is_negative_of(),
    {
        let m = self.bits % SIGN_BIT;
        self.bits >= SIGN_BIT && 0 < m && m <= INFINITY_BITS
    }

    /// `max(value, 0.0)`.  For `-0.0` either zero may be returned by the
    /// floating-point maximum; this returns positive zero.
    pub fn clamp_non_negative(self) -> (d: Days)
        ensures
            d == self.clamp_of(),
    {
        if self.bits >= SIGN_BIT || self.is_nan() {
            Days { bits: ZERO_BITS }
        } else {
            self
        }
    }
}

/// After clamping, a value is never negative and never a NaN, and clamping
/// twice is clamping once.
pub proof fn clamp_is_non_negative(d: Days)
    ensures
        !d.clamp_of().is_negative_of(),
        !d.clamp_of().is_nan_of(),
        !d.clamp_of().sign_of(),
        d.clamp_of().clamp_of() == d.clamp_of(),
        !d.sign_of() && !d.is_nan_of() ==> d.clamp_of() == d,
{
}

} // verus!
