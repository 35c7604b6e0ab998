//! IEEE 754 binary32 values, held by their bit pattern.
//!
//! Every finite binary32 magnitude is a whole multiple of 2^-149, the smallest
//! subnormal. The model below counts magnitudes in that unit, so that exact
//! sums, products and quotients of data are integers or ratios of integers,
//! and rounding is stated over them: the result of an operation is the datum
//! nearest to the exact result, ties going to the even pattern.

pub mod add;
pub mod convert;
pub mod div;
pub mod grid;
pub mod mul;
pub mod round;
pub mod order;
pub mod powers;

use vstd::arithmetic::power2::pow2;
use vstd::prelude::*;

verus! {

/// The bit that holds the sign.
pub const SIGN_MASK: u32 = 0x8000_0000;

/// The magnitude pattern of infinity; every larger magnitude is a NaN.
pub const INFINITY_PATTERN: u32 = 0x7f80_0000;

/// The one NaN that the operations of this module produce.
pub const CANONICAL_NAN: u32 = 0x7fc0_0000;

/// The weight of the implicit leading bit of a normal significand.
pub const HIDDEN_BIT: u32 = 0x80_0000;

/// The exponent field of a magnitude pattern.
pub open spec fn exponent_field(p: nat) -> nat {
    p / 0x80_0000
}

/// The fraction field of a magnitude pattern.
pub open spec fn fraction_field(p: nat) -> nat {
    p % 0x80_0000
}

/// The integer significand of a magnitude pattern: the fraction, with the
/// hidden bit in front unless the exponent field is zero.
pub open spec fn significand(p: nat) -> nat {
    if exponent_field(p) == 0 {
        fraction_field(p)
    } else {
        0x80_0000 + fraction_field(p)
    }
}

/// The power of two, above 2^-149, that weighs the significand's last bit.
pub open spec fn binade(p: nat) -> nat {
    if exponent_field(p) == 0 {
        0
    } else {
        (exponent_field(p) - 1) as nat
    }
}

/// The magnitude with pattern `p`, counted in units of 2^-149. The pattern of
/// infinity counts as 2^128, the first power of two out of range.
pub open spec fn scaled(p: nat) -> nat {
    significand(p) * pow2(binade(p))
}

/// `p` is the finite pattern just at or below the ratio `num / den`.
pub open spec fn is_floor(p: nat, num: nat, den: nat) -> bool {
    &&& p < 0x7f80_0000
    &&& scaled(p) * den <= num
    &&& num < scaled(p + 1) * den
}

/// Of the neighbours `p` and `p + 1` of the ratio `num / den`, the nearer one;
/// the even one where the ratio lies midway.
pub open spec fn round_at(p: nat, num: nat, den: nat) -> nat {
    let below = num - scaled(p) * den;
    let above = scaled(p + 1) * den - num;
    if below < above || (below == above && p % 2 == 0) {
        p
    } else {
        p + 1
    }
}

/// The magnitude pattern nearest to `num / den` units of 2^-149, ties to even:
/// infinity from 2^128 on, and where rounding the largest finite pattern up
/// leads there.
pub open spec fn nearest(num: nat, den: nat) -> nat {
    if num >= scaled(0x7f80_0000) * den {
        0x7f80_0000
    } else {
        round_at(choose|p: nat| is_floor(p, num, den), num, den)
    }
}

/// The datum with the given sign and magnitude pattern.
pub open spec fn pack(negative: bool, magnitude: nat) -> Binary32 {
    Binary32 {
        bits: (if negative {
            0x8000_0000 + magnitude
        } else {
            magnitude
        }) as u32,
    }
}

/// The canonical NaN.
pub open spec fn nan() -> Binary32 {
    Binary32 { bits: 0x7fc0_0000 }
}

/// A binary32 datum: sign bit, eight exponent bits, twenty-three fraction bits.
#[derive(Clone, Copy, Debug, PartialEq, Eq, Structural)]
pub struct Binary32 {
    pub bits: u32,
}

impl Binary32 {
    /// The pattern without its sign bit.
    pub open spec fn magnitude(self) -> nat {
        (self.bits % 0x8000_0000) as nat
    }

    /// Whether the sign bit is set.
    pub open spec fn spec_is_negative(self) -> bool {
        self.bits >= 0x8000_0000
    }

    /// Whether the datum is a NaN.
    pub open spec fn spec_is_nan(self) -> bool {
        self.magnitude() > 0x7f80_0000
    }

    /// Whether the datum is an infinity.
    pub open spec fn spec_is_infinite(self) -> bool {
        self.magnitude() == 0x7f80_0000
    }

    /// Whether the datum is a number: zero, subnormal or normal.
    pub open spec fn spec_is_finite(self) -> bool {
        self.magnitude() < 0x7f80_0000
    }

    /// Whether the datum is a zero of either sign.
    pub open spec fn spec_is_zero(self) -> bool {
        self.magnitude() == 0
    }

    /// The signed value in units of 2^-149; an infinity counts as 2^128 of
    /// its sign. Not meaningful for a NaN.
    pub open spec fn value(self) -> int {
        if self.spec_is_negative() {
            -(scaled(self.magnitude()) as int)
        } else {
            scaled(self.magnitude()) as int
        }
    }

    /// The datum with the given bit pattern.
    pub fn from_bits(bits: u32) -> (r: Self)
        ensures
            r.bits == bits,
    {
        Binary32 { bits }
    }

    /// The bit pattern.
    pub fn to_bits(self) -> (bits: u32)
        ensures
            bits == self.bits,
    {
        self.bits
    }

    /// The pattern without its sign bit.
    pub fn magnitude_bits(self) -> (m: u32)
        ensures
            m == self.magnitude(),
    {
        self.bits % SIGN_MASK
    }

    #[verifier::when_used_as_spec(spec_is_negative)]
    pub fn is_negative(self) -> (b: bool)
        ensures
            b == self.spec_is_negative(),
    {
        self.bits >= SIGN_MASK
    }

    #[verifier::when_used_as_spec(spec_is_nan)]
    pub fn is_nan(self) -> (b: bool)
        ensures
            b == self.spec_is_nan(),
    {
        self.magnitude_bits() > INFINITY_PATTERN
    }

    #[verifier::when_used_as_spec(spec_is_infinite)]
    pub fn is_infinite(self) -> (b: bool)
        ensures
            b == self.spec_is_infinite(),
    {
        self.magnitude_bits() == INFINITY_PATTERN
    }

    #[verifier::when_used_as_spec(spec_is_finite)]
    pub fn is_finite(self) -> (b: bool)
        ensures
            b == self.spec_is_finite(),
    {
        self.magnitude_bits() < INFINITY_PATTERN
    }

    #[verifier::when_used_as_spec(spec_is_zero)]
    pub fn is_zero(self) -> (b: bool)
        ensures
            b == self.spec_is_zero(),
    {
        self.magnitude_bits() == 0
    }

    /// The integer significand and the binade of the magnitude.
    pub fn decompose(self) -> (r: (u32, u32))
        ensures
            r.0 == significand(self.magnitude()),
            r.1 == binade(self.magnitude()),
            r.0 < 0x100_0000,
            r.1 <= 254,
            r.1 >= 1 ==> r.0 >= 0x80_0000,
            r.0 == 0 <==> self.magnitude() == 0,
    {
        let m: u32 = self.magnitude_bits();
        let e: u32 = m / HIDDEN_BIT;
        let f: u32 = m % HIDDEN_BIT;
        if e == 0 {
            (f, 0)
        } else {
            (HIDDEN_BIT + f, e - 1)
        }
    }
}

/// The datum with the given sign and magnitude pattern.
pub fn assemble(negative: bool, magnitude: u32) -> (r: Binary32)
    requires
        magnitude < 0x8000_0000,
    ensures
        r == pack(negative, magnitude as nat),
        r.magnitude() == magnitude,
        r.is_negative() == negative,
{
    if negative {
        Binary32 { bits: SIGN_MASK + magnitude }
    } else {
        Binary32 { bits: magnitude }
    }
}

} // verus!
