use vstd::arithmetic::power2::pow2;
use vstd::prelude::*;

verus! {

/// Weight of the implicit leading bit of a normal binary64 significand, 2^52.
pub const HIDDEN_BIT: u64 = 0x10_0000_0000_0000;

/// Number of values of the biased exponent field, 2^11.
pub const EXPONENT_SPAN: u64 = 0x800;

/// The biased exponent field that marks infinities and NaNs.
pub const EXPONENT_SPECIAL: u64 = 0x7ff;

/// Mask of the sign bit, 2^63.
pub const SIGN_BIT: u64 = 0x8000_0000_0000_0000;

/// The power of two by which the significand of a normal number with biased
/// exponent field `e` is scaled is `e - EXPONENT_OFFSET`.
pub const EXPONENT_OFFSET: u64 = 1075;

/// A decimal number as callers deliver it: the bit pattern of an IEEE-754
/// binary64. The library never computes in floating point; it reads the sign,
/// exponent and fraction fields and works on the exact rational they denote,
///
/// ```text
///     (-1)^sign * significand * 2^exponent
/// ```
#[derive(Clone, Copy, Debug, PartialEq, Eq, Structural)]
pub struct Decimal {
    pub bits: u64,
}

/// The three kinds of binary64, with the fields of each read out.
#[derive(Clone, Copy, Debug, PartialEq, Eq, Structural)]
pub enum Unpacked {
    Nan,
    Infinite { negative: bool },
    Finite { negative: bool, significand: u64, exponent: i32 },
}

impl Decimal {
    /// Whether the sign bit is set.
    pub open spec fn is_negative(self) -> bool {
        self.bits >= SIGN_BIT
    }

    /// The 11-bit biased exponent field.
    pub open spec fn biased_exponent(self) -> int {
        (self.bits as int / HIDDEN_BIT as int) % EXPONENT_SPAN as int
    }

    /// The 52-bit fraction field.
    pub open spec fn fraction(self) -> int {
        self.bits as int % HIDDEN_BIT as int
    }

    pub open spec fn is_nan(self) -> bool {
        self.biased_exponent() == EXPONENT_SPECIAL && self.fraction() != 0
    }

    pub open spec fn is_infinite(self) -> bool {
        self.biased_exponent() == EXPONENT_SPECIAL && self.fraction() == 0
    }

    pub open spec fn is_finite(self) -> bool {
        self.biased_exponent() != EXPONENT_SPECIAL
    }

    /// The integer significand of a finite number: the fraction field, with
    /// the implicit leading bit unless the number is subnormal.
    pub open spec fn significand(self) -> int {
        if self.biased_exponent() == 0 {
            self.fraction()
        } else {
            HIDDEN_BIT as int + self.fraction()
        }
    }

    /// The power of two that scales the significand of a finite number.
    pub open spec fn exponent(self) -> int {
        if self.biased_exponent() == 0 {
            1 - EXPONENT_OFFSET as int
        } else {
            self.biased_exponent() - EXPONENT_OFFSET as int
        }
    }

    /// Numerator of the magnitude of a finite number, written as a fraction
    /// whose denominator is `magnitude_den`.
    pub open spec fn magnitude_num(self) -> int {
        if self.exponent() >= 0 {
            self.significand() * pow2(self.exponent() as nat)
        } else {
            self.significand()
        }
    }

    /// Denominator of the magnitude of a finite number: a power of two.
    pub open spec fn magnitude_den(self) -> int {
        if self.exponent() >= 0 {
            1
        } else {
            pow2((-self.exponent()) as nat) as int
        }
    }

    /// Numerator of the signed value over `magnitude_den`.
    pub open spec fn value_num(self) -> int {
        if self.is_negative() {
            -self.magnitude_num()
        } else {
            self.magnitude_num()
        }
    }

    /// Reads the fields out of the bit pattern.
    pub fn unpack(self) -> (parts: Unpacked)
        ensures
            parts == (if self.is_nan() {
                Unpacked::Nan
            } else if self.is_infinite() {
                Unpacked::Infinite { negative: self.is_negative() }
            } else {
                Unpacked::Finite {
                    negative: self.is_negative(),
                    significand: self.significand() as u64,
                    exponent: self.exponent() as i32,
                }
            }),
            self.is_finite() ==> 0 <= self.significand() < 2 * HIDDEN_BIT && -1074
                <= self.exponent() <= 971 && (self.exponent() > -1074 ==> self.significand()
                >= HIDDEN_BIT),
    {
        let field: u64 = self.bits / HIDDEN_BIT % EXPONENT_SPAN;
        let fraction: u64 = self.bits % HIDDEN_BIT;
        let negative: bool = self.bits >= SIGN_BIT;
        if field == EXPONENT_SPECIAL {
            if fraction != 0 {
                Unpacked::Nan
            } else {
                Unpacked::Infinite { negative }
            }
        } else if field == 0 {
            Unpacked::Finite { negative, significand: fraction, exponent: -1074 }
        } else {
            Unpacked::Finite {
                negative,
                significand: HIDDEN_BIT + fraction,
                exponent: field as i32 - 1075,
            }
        }
    }

    pub fn from_bits(bits: u64) -> (d: Decimal)
        ensures
            d.bits == bits,
    {
        Decimal { bits }
    }

    pub fn to_bits(self) -> (bits: u64)
        ensures
            bits == self.bits,
    {
        self.bits
    }
}

} // verus!
