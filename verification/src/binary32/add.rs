//! Addition and subtraction.

use crate::binary32::grid::{lemma_nearest_exact, lemma_scaled_increasing, lemma_zero_magnitude};
use crate::binary32::powers::{lemma_pow2_monotone, lemma_pow2_values, power_of_two};
use crate::binary32::round::round_pack;
use crate::binary32::{assemble, nan, nearest, pack, scaled, Binary32, CANONICAL_NAN, SIGN_MASK};
use vstd::arithmetic::power2::{lemma_pow2_adds, lemma_pow2_pos, pow2};
use vstd::prelude::*;

verus! {

/// The sum of two data: a NaN where either is one or where the two are
/// infinities of opposite sign; else the infinity among them; else the exact
/// sum, rounded. An exact sum of zero is positive unless both are negative.
#[verifier::opaque]
pub open spec fn sum(a: Binary32, b: Binary32) -> Binary32 {
    if a.is_nan() || b.is_nan() {
        nan()
    } else if a.is_infinite() {
        if b.is_infinite() && a.is_negative() != b.is_negative() {
            nan()
        } else {
            a
        }
    } else if b.is_infinite() {
        b
    } else {
        let v = a.value() + b.value();
        if v == 0 {
            pack(a.is_negative() && b.is_negative(), 0)
        } else if v < 0 {
            pack(true, nearest((-v) as nat, 1))
        } else {
            pack(false, nearest(v as nat, 1))
        }
    }
}

/// The datum with the other sign.
pub open spec fn negated(a: Binary32) -> Binary32 {
    Binary32 {
        bits: (if a.bits >= 0x8000_0000 {
            a.bits - 0x8000_0000
        } else {
            a.bits + 0x8000_0000
        }) as u32,
    }
}

/// The difference of two data: the sum of the first and the second negated.
pub open spec fn difference(a: Binary32, b: Binary32) -> Binary32 {
    sum(a, negated(b))
}

/// Where the binades are `d` apart, both magnitudes are whole multiples of the
/// smaller binade's unit.
proof fn lemma_near(mb: nat, eb: nat, ms: nat, es: nat, d: nat)
    requires
        eb == es + d,
    ensures
        8 * (mb * pow2(eb)) == (mb * pow2(d)) * (pow2(es + 3) * 1),
        8 * (ms * pow2(es)) == ms * (pow2(es + 3) * 1),
        pow2(es + 3) * 1 > 0,
{
    lemma_pow2_values();
    lemma_pow2_adds(d, es);
    lemma_pow2_adds(3, es);
    lemma_pow2_pos(es + 3);
    assert(3 + es == es + 3 && d + es == es + d);
    let pd = pow2(d);
    let pe = pow2(es);
    let pb = pow2(eb);
    let eightfold = pow2(es + 3);
    assert(8 * (mb * pb) == (mb * pd) * (eightfold * 1)) by (nonlinear_arith)
        requires
            pb == pd * pe,
            eightfold == 8 * pe,
    ;
    assert(8 * (ms * pe) == ms * (eightfold * 1)) by (nonlinear_arith)
        requires
            eightfold == 8 * pe,
    ;
}

/// Where the binades are thirty-two or more apart, the smaller magnitude is
/// less than a 256th of the larger one's last place.
proof fn lemma_far(mb: nat, eb: nat, ms: nat, es: nat)
    requires
        eb >= es + 32,
        0 < ms < 0x100_0000,
    ensures
        8 * (mb * pow2(eb)) == (256 * mb) * (pow2((eb - 5) as nat) * 1),
        0 < 8 * (ms * pow2(es)) < pow2((eb - 5) as nat) * 1,
{
    lemma_pow2_values();
    let w = pow2((eb - 5) as nat);
    let pb = pow2(eb);
    let pe = pow2(es);
    lemma_pow2_adds(5, (eb - 5) as nat);
    vstd::arithmetic::power2::lemma2_to64();
    assert(pb == 32 * w);
    assert(8 * (mb * pb) == (256 * mb) * (w * 1)) by (nonlinear_arith)
        requires
            pb == 32 * w,
    ;
    lemma_pow2_adds(27, es);
    lemma_pow2_monotone(27 + es, (eb - 5) as nat);
    lemma_pow2_pos(es);
    assert(pow2(27) == 0x800_0000);
    assert(8 * (ms * pe) < pow2(27) * pe) by (nonlinear_arith)
        requires
            ms < 0x100_0000,
            pow2(27) == 0x800_0000,
            pe > 0,
    ;
    assert(0 < 8 * (ms * pe)) by (nonlinear_arith)
        requires
            ms > 0,
            pe > 0,
    ;
}

impl Binary32 {
    /// The datum with the other sign.
    pub fn negate(self) -> (r: Binary32)
        ensures
            r == negated(self),
            r.magnitude() == self.magnitude(),
            r.is_negative() != self.is_negative(),
    {
        if self.bits >= SIGN_MASK {
            Binary32 { bits: self.bits - SIGN_MASK }
        } else {
            Binary32 { bits: self.bits + SIGN_MASK }
        }
    }

    /// The sum of `self` and `other`.
    pub fn plus(self, other: Binary32) -> (r: Binary32)
        ensures
            r == sum(self, other),
    {
        reveal(sum);
        if self.is_nan() || other.is_nan() {
            return Binary32 { bits: CANONICAL_NAN };
        }
        if self.is_infinite() {
            if other.is_infinite() && self.is_negative() != other.is_negative() {
                return Binary32 { bits: CANONICAL_NAN };
            }
            return self;
        }
        if other.is_infinite() {
            return other;
        }
        let swap: bool = self.magnitude_bits() < other.magnitude_bits();
        let big: Binary32 = if swap { other } else { self };
        let small: Binary32 = if swap { self } else { other };
        let (mb, eb) = big.decompose();
        let (ms, es) = small.decompose();
        let negative: bool = big.is_negative();
        let same: bool = big.is_negative() == small.is_negative();
        let ghost sb: nat = scaled(big.magnitude());
        let ghost ss: nat = scaled(small.magnitude());
        proof {
            lemma_pow2_values();
            assert(big.value() + small.value() == self.value() + other.value());
            if big.magnitude() > small.magnitude() {
                lemma_scaled_increasing(small.magnitude(), big.magnitude());
            }
            lemma_pow2_pos(es as nat);
            lemma_pow2_pos(eb as nat);
            assert(ss == ms * pow2(es as nat));
            assert(sb == mb * pow2(eb as nat));
            if ms > 0 {
                assert(ms * pow2(es as nat) > 0) by (nonlinear_arith)
                    requires
                        ms > 0,
                        pow2(es as nat) > 0,
                ;
            } else {
                assert(ms * pow2(es as nat) == 0) by (nonlinear_arith)
                    requires
                        ms == 0,
                ;
            }
        }
        if !same && big.magnitude_bits() == small.magnitude_bits() {
            return assemble(false, 0);
        }
        if ms == 0 {
            if mb == 0 {
                return assemble(negative && same, 0);
            }
            proof {
                lemma_near(mb as nat, eb as nat, 0, eb as nat, 0);
                let w = pow2((eb + 3) as nat) * 1;
                assert(mb * pow2(0) == mb) by (nonlinear_arith)
                    requires
                        pow2(0) == 1,
                ;
                assert((mb + 1) * w == mb * w + w) by (nonlinear_arith);
                assert(mb * pow2(eb as nat) > 0) by (nonlinear_arith)
                    requires
                        mb > 0,
                        pow2(eb as nat) > 0,
                ;
            }
            return round_pack(negative, mb as u128, eb + 3, false, Ghost(sb), Ghost(1));
        }
        let d: u32 = eb - es;
        let ghost num: nat = if same { sb + ss } else { (sb - ss) as nat };
        let q: u128;
        let e: u32;
        let sticky: bool;
        if d <= 64 {
            let pd: u128 = power_of_two(d);
            proof {
                lemma_pow2_monotone(d as nat, 64);
                lemma_near(mb as nat, eb as nat, ms as nat, es as nat, d as nat);
                assert(mb * pd < 0x100_0000 * 0x1_0000_0000_0000_0000) by (nonlinear_arith)
                    requires
                        mb < 0x100_0000,
                        pd <= 0x1_0000_0000_0000_0000,
                ;
                let w = pow2((es + 3) as nat) * 1;
                let hi = (mb * pd) as int;
                let lo = ms as int;
                assert((hi + lo) * w == hi * w + lo * w) by (nonlinear_arith);
                assert((hi - lo) * w == hi * w - lo * w) by (nonlinear_arith);
                assert((hi + lo + 1) * w == (hi + lo) * w + w) by (nonlinear_arith);
                assert((hi - lo + 1) * w == (hi - lo) * w + w) by (nonlinear_arith);
                if !same {
                    assert(hi > lo) by (nonlinear_arith)
                        requires
                            hi * w > lo * w,
                            w > 0,
                    ;
                }
            }
            q = if same {
                (mb as u128) * pd + (ms as u128)
            } else {
                (mb as u128) * pd - (ms as u128)
            };
            e = es + 3;
            sticky = false;
        } else {
            proof {
                lemma_far(mb as nat, eb as nat, ms as nat, es as nat);
                let w = pow2((eb - 5) as nat) * 1;
                let hi = (256 * mb) as int;
                assert((hi + 1) * w == hi * w + w) by (nonlinear_arith);
                assert((hi - 1) * w == hi * w - w) by (nonlinear_arith);
            }
            q = if same {
                256 * (mb as u128)
            } else {
                256 * (mb as u128) - 1
            };
            e = eb - 5;
            sticky = true;
        }
        round_pack(negative, q, e, sticky, Ghost(num), Ghost(1))
    }

    /// The difference of `self` and `other`.
    pub fn minus(self, other: Binary32) -> (r: Binary32)
        ensures
            r == difference(self, other),
    {
        self.plus(other.negate())
    }
}

/// Adding a datum to positive zero gives the datum back, but for a negative
/// zero, which turns positive, and a NaN, which turns canonical.
pub proof fn lemma_sum_with_zero(x: Binary32)
    ensures
        sum(Binary32 { bits: 0 }, x) == (if x.is_nan() {
            nan()
        } else if x.is_zero() {
            Binary32 { bits: 0 }
        } else {
            x
        }),
{
    reveal(sum);
    lemma_zero_magnitude(x.magnitude());
    if x.is_finite() && !x.is_zero() {
        let m = x.magnitude();
        lemma_nearest_exact(m, 1);
        assert(scaled(m) * 1 == scaled(m));
        assert(pack(x.is_negative(), m) == x);
    }
}

/// The order of the terms does not matter.
pub proof fn lemma_sum_commutes(a: Binary32, b: Binary32)
    ensures
        sum(a, b) == sum(b, a),
{
    reveal(sum);
}

} // verus!
