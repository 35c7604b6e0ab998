//! Multiplication.

use crate::binary32::grid::lemma_zero_magnitude;
use crate::binary32::powers::lemma_pow2_values;
use crate::binary32::round::{lemma_shift_bracket, round_pack, shift_right_sticky};
use crate::binary32::{assemble, nan, nearest, pack, scaled, Binary32, CANONICAL_NAN, INFINITY_PATTERN};
use vstd::arithmetic::power2::{lemma_pow2_adds, lemma_pow2_pos, pow2};
use vstd::prelude::*;

verus! {

/// The product of two data: a NaN where either is one or where zero meets
/// infinity; else infinity where either is infinite; else the exact product,
/// rounded. The sign is negative where the signs differ.
#[verifier::opaque]
pub open spec fn product(a: Binary32, b: Binary32) -> Binary32 {
    let negative = a.is_negative() != b.is_negative();
    if a.is_nan() || b.is_nan() {
        nan()
    } else if a.is_infinite() || b.is_infinite() {
        if a.is_zero() || b.is_zero() {
            nan()
        } else {
            pack(negative, 0x7f80_0000)
        }
    } else {
        pack(negative, nearest(scaled(a.magnitude()) * scaled(b.magnitude()), pow2(149)))
    }
}

/// Eight times the exact product of `ma * 2^ea` and `mb * 2^eb` is the
/// product of the significands, `ea + eb + 3` binary places up.
proof fn lemma_product_units(ma: nat, ea: nat, mb: nat, eb: nat)
    ensures
        8 * ((ma * pow2(ea)) * (mb * pow2(eb))) == (ma * mb) * pow2(ea + eb + 3),
{
    lemma_pow2_values();
    lemma_pow2_adds(ea, eb);
    lemma_pow2_adds(3, ea + eb);
    let pa = pow2(ea);
    let pb = pow2(eb);
    let pg = pow2(ea + eb + 3);
    assert(3 + (ea + eb) == ea + eb + 3);
    assert(8 * ((ma * pa) * (mb * pb)) == (ma * mb) * pg) by (nonlinear_arith)
        requires
            pg == 8 * (pa * pb),
    ;
}

impl Binary32 {
    /// The product of `self` and `other`.
    pub fn times(self, other: Binary32) -> (r: Binary32)
        ensures
            r == product(self, other),
    {
        reveal(product);
        let negative: bool = self.is_negative() != other.is_negative();
        if self.is_nan() || other.is_nan() {
            return Binary32 { bits: CANONICAL_NAN };
        }
        if self.is_infinite() || other.is_infinite() {
            if self.is_zero() || other.is_zero() {
                return Binary32 { bits: CANONICAL_NAN };
            }
            return assemble(negative, INFINITY_PATTERN);
        }
        let (ma, ea) = self.decompose();
        let (mb, eb) = other.decompose();
        assert(ma * mb < 0x1_0000_0000_0000) by (nonlinear_arith)
            requires
                ma < 0x100_0000,
                mb < 0x100_0000,
        ;
        let m: u128 = (ma as u128) * (mb as u128);
        let g: u32 = ea + eb + 3;
        let ghost num: nat = scaled(self.magnitude()) * scaled(other.magnitude());
        let ghost den: nat = pow2(149);
        proof {
            lemma_pow2_values();
            lemma_product_units(ma as nat, ea as nat, mb as nat, eb as nat);
            lemma_pow2_pos(149);
            lemma_pow2_pos(g as nat);
        }
        if g >= 149 {
            proof {
                lemma_pow2_adds((g - 149) as nat, 149);
                let w = pow2((g - 149) as nat) * den;
                assert((m + 1) * w == m * w + w) by (nonlinear_arith);
            }
            round_pack(negative, m, g - 149, false, Ghost(num), Ghost(den))
        } else {
            let r: u32 = 149 - g;
            let (q, sticky) = shift_right_sticky(m, r);
            proof {
                let unit = pow2(g as nat);
                let span = pow2(r as nat);
                let rem = m as nat % span;
                lemma_pow2_adds(r as nat, g as nat);
                lemma_pow2_pos(r as nat);
                assert((m + 1) * unit == m * unit + unit) by (nonlinear_arith);
                lemma_shift_bracket(m as int, q as int, rem as int, span as int, unit as int, (8 * num) as int);
                assert(pow2(0) * den == span * unit) by (nonlinear_arith)
                    requires
                        pow2(0) == 1,
                        den == span * unit,
                ;
            }
            round_pack(negative, q, 0, sticky, Ghost(num), Ghost(den))
        }
    }
}

/// A zero times a number is the zero whose sign is the product of the signs.
pub proof fn lemma_product_with_zero(a: Binary32, b: Binary32)
    requires
        a.is_finite(),
        b.is_finite(),
        a.is_zero() || b.is_zero(),
    ensures
        product(a, b) == pack(a.is_negative() != b.is_negative(), 0),
{
    reveal(product);
    lemma_zero_magnitude(0);
    let sa = scaled(a.magnitude());
    let sb = scaled(b.magnitude());
    assert(sa * sb == 0) by (nonlinear_arith)
        requires
            sa == 0 || sb == 0,
    ;
}

/// The order of the factors does not matter.
pub proof fn lemma_product_commutes(a: Binary32, b: Binary32)
    ensures
        product(a, b) == product(b, a),
{
    reveal(product);
    let sa = scaled(a.magnitude());
    let sb = scaled(b.magnitude());
    assert(sa * sb == sb * sa) by (nonlinear_arith);
}

} // verus!
