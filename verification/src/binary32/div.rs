//! Division.

use crate::binary32::powers::lemma_pow2_values;
use crate::binary32::round::{lemma_shift_bracket, round_pack, shift_right_sticky};
use crate::binary32::{assemble, nan, nearest, pack, scaled, Binary32, CANONICAL_NAN, INFINITY_PATTERN};
use vstd::arithmetic::div_mod::lemma_fundamental_div_mod;
use vstd::arithmetic::power2::{lemma_pow2_adds, lemma_pow2_pos, pow2};
use vstd::prelude::*;

verus! {

/// The quotient of two data: a NaN where either is one, where both are
/// infinite and where both are zero; infinity where the first is infinite or
/// the second is zero; zero where the second is infinite; else the exact
/// quotient, rounded. The sign is negative where the signs differ.
#[verifier::opaque]
pub open spec fn quotient(a: Binary32, b: Binary32) -> Binary32 {
    let negative = a.is_negative() != b.is_negative();
    if a.is_nan() || b.is_nan() {
        nan()
    } else if a.is_infinite() {
        if b.is_infinite() {
            nan()
        } else {
            pack(negative, 0x7f80_0000)
        }
    } else if b.is_infinite() {
        pack(negative, 0)
    } else if b.is_zero() {
        if a.is_zero() {
            nan()
        } else {
            pack(negative, 0x7f80_0000)
        }
    } else {
        pack(negative, nearest(scaled(a.magnitude()) * pow2(149), scaled(b.magnitude())))
    }
}

/// The long division of `ma * 2^64` by `mb` brackets eight times the exact
/// quotient of `ma * 2^ea` by `mb * 2^eb`, in units of `mb * 2^(ea + 88)`.
proof fn lemma_quotient_units(ma: nat, ea: nat, mb: nat, q: nat, r: nat)
    requires
        mb > 0,
        ma * pow2(64) == q * mb + r,
        r < mb,
    ensures
        mb * pow2(ea + 88) > 0,
        q * (mb * pow2(ea + 88)) <= 8 * ((ma * pow2(ea)) * pow2(149)),
        8 * ((ma * pow2(ea)) * pow2(149)) < (q + 1) * (mb * pow2(ea + 88)),
        q * (mb * pow2(ea + 88)) < 8 * ((ma * pow2(ea)) * pow2(149)) <==> r != 0,
{
    lemma_pow2_values();
    lemma_pow2_adds(64, ea + 88);
    lemma_pow2_adds(3, 149);
    lemma_pow2_adds(ea, 152);
    lemma_pow2_pos(ea + 88);
    assert(64 + (ea + 88) == ea + 152);
    let t = pow2(ea + 88);
    let pa = pow2(ea);
    let whole = pow2(149);
    let lift = pow2(64);
    let val = 8 * ((ma * pa) * whole);
    assert(val == (ma * lift) * t) by (nonlinear_arith)
        requires
            val == 8 * ((ma * pa) * whole),
            lift * t == pa * pow2(152),
            pow2(152) == 8 * whole,
    ;
    assert((q * mb + r) * t == q * (mb * t) + r * t) by (nonlinear_arith);
    assert((q + 1) * (mb * t) == q * (mb * t) + mb * t) by (nonlinear_arith);
    assert(r * t < mb * t) by (nonlinear_arith)
        requires
            r < mb,
            t > 0,
    ;
    assert(mb * t > 0) by (nonlinear_arith)
        requires
            mb > 0,
            t > 0,
    ;
    if r != 0 {
        assert(r * t > 0) by (nonlinear_arith)
            requires
                r > 0,
                t > 0,
        ;
    } else {
        assert(r * t == 0) by (nonlinear_arith)
            requires
                r == 0,
        ;
    }
}

impl Binary32 {
    /// The quotient of `self` by `other`.
    pub fn divided_by(self, other: Binary32) -> (r: Binary32)
        ensures
            r == quotient(self, other),
    {
        reveal(quotient);
        let negative: bool = self.is_negative() != other.is_negative();
        if self.is_nan() || other.is_nan() {
            return Binary32 { bits: CANONICAL_NAN };
        }
        if self.is_infinite() {
            if other.is_infinite() {
                return Binary32 { bits: CANONICAL_NAN };
            }
            return assemble(negative, INFINITY_PATTERN);
        }
        if other.is_infinite() {
            return assemble(negative, 0);
        }
        if other.is_zero() {
            if self.is_zero() {
                return Binary32 { bits: CANONICAL_NAN };
            }
            return assemble(negative, INFINITY_PATTERN);
        }
        let (ma, ea) = self.decompose();
        let (mb, eb) = other.decompose();
        let ghost num: nat = scaled(self.magnitude()) * pow2(149);
        let ghost den: nat = scaled(other.magnitude());
        proof {
            lemma_pow2_values();
        }
        let top: u128 = (ma as u128) * 0x1_0000_0000_0000_0000;
        let quo: u128 = top / (mb as u128);
        let rem: u128 = top % (mb as u128);
        proof {
            lemma_fundamental_div_mod(top as int, mb as int);
            assert(top == quo * mb + rem) by (nonlinear_arith)
                requires
                    top == mb * quo + rem,
            ;
            lemma_quotient_units(ma as nat, ea as nat, mb as nat, quo as nat, rem as nat);
            assert(quo < 0x100_0000 * 0x1_0000_0000_0000_0000) by (nonlinear_arith)
                requires
                    top == quo * mb + rem,
                    mb >= 1,
                    rem >= 0,
                    top < 0x100_0000 * 0x1_0000_0000_0000_0000,
            ;
            if rem != 0 {
                assert(quo >= 0x400_0000) by (nonlinear_arith)
                    requires
                        top == quo * mb + rem,
                        mb < 0x100_0000,
                        rem < mb,
                        top >= 0x1_0000_0000_0000_0000,
                ;
            }
            lemma_pow2_pos(eb as nat);
            assert(den > 0) by (nonlinear_arith)
                requires
                    den == mb * pow2(eb as nat),
                    mb > 0,
                    pow2(eb as nat) > 0,
            ;
            assert(num == (ma * pow2(ea as nat)) * pow2(149));
        }
        if ea + 88 >= eb {
            let e: u32 = ea + 88 - eb;
            proof {
                lemma_pow2_adds(e as nat, eb as nat);
                let t = pow2((ea + 88) as nat);
                assert(pow2(e as nat) * den == mb * t) by (nonlinear_arith)
                    requires
                        den == mb * pow2(eb as nat),
                        t == pow2(e as nat) * pow2(eb as nat),
                ;
            }
            round_pack(negative, quo, e, rem != 0, Ghost(num), Ghost(den))
        } else {
            let r: u32 = eb - ea - 88;
            let (q, dropped) = shift_right_sticky(quo, r);
            proof {
                let t = pow2((ea + 88) as nat);
                let unit = mb * t;
                let span = pow2(r as nat);
                lemma_pow2_adds(r as nat, (ea + 88) as nat);
                lemma_pow2_pos(r as nat);
                lemma_shift_bracket(quo as int, q as int, (quo as nat % span) as int, span as int, unit as int, (8 * num) as int);
                assert(pow2(0) * den == span * unit) by (nonlinear_arith)
                    requires
                        pow2(0) == 1,
                        den == mb * pow2(eb as nat),
                        pow2(eb as nat) == span * t,
                        unit == mb * t,
                ;
            }
            round_pack(negative, q, 0, dropped || rem != 0, Ghost(num), Ghost(den))
        }
    }
}

} // verus!
