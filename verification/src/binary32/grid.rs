//! The grid of representable magnitudes: how far apart neighbours lie, that
//! patterns and magnitudes are ordered alike, and that the neighbours of a
//! ratio, once found, decide its rounding.

use crate::binary32::powers::{lemma_pow2_double, lemma_pow2_values};
use crate::binary32::{binade, exponent_field, fraction_field, is_floor, nearest, round_at, scaled, significand};
use vstd::arithmetic::power2::{lemma_pow2_pos, pow2};
use vstd::prelude::*;

verus! {

/// From one pattern to the next the magnitude grows by one unit of the
/// pattern's binade, across the step from subnormal to normal and from one
/// exponent to the next as well.
pub proof fn lemma_scaled_step(p: nat)
    ensures
        scaled(p + 1) == scaled(p) + pow2(binade(p)),
{
    let e = exponent_field(p);
    let f = fraction_field(p);
    let w = pow2(binade(p));
    lemma_pow2_values();
    if f + 1 < 0x80_0000 {
        assert(exponent_field(p + 1) == e);
        assert(fraction_field(p + 1) == f + 1);
        let s = significand(p);
        assert(significand(p + 1) == s + 1);
        assert(binade(p + 1) == binade(p));
        assert((s + 1) * w == s * w + w) by (nonlinear_arith);
        assert(scaled(p + 1) == (s + 1) * w);
    } else {
        assert(exponent_field(p + 1) == e + 1);
        assert(fraction_field(p + 1) == 0);
        assert(significand(p + 1) == 0x80_0000);
        if e == 0 {
            assert(significand(p) == 0x7f_ffff);
            assert(binade(p + 1) == 0);
            assert(w == 1);
            assert(scaled(p) == 0x7f_ffff * w);
            assert(scaled(p + 1) == 0x80_0000 * w);
        } else {
            assert(significand(p) == 0xff_ffff);
            assert(binade(p + 1) == binade(p) + 1);
            lemma_pow2_double(binade(p));
            let w2 = pow2(binade(p + 1));
            assert(w2 == 2 * w);
            assert(0x80_0000 * w2 == 0xff_ffff * w + w) by (nonlinear_arith)
                requires
                    w2 == 2 * w,
            ;
            assert(scaled(p) == 0xff_ffff * w);
            assert(scaled(p + 1) == 0x80_0000 * w2);
        }
    }
}

/// A larger pattern is a larger magnitude.
pub proof fn lemma_scaled_increasing(p: nat, q: nat)
    requires
        p < q,
    ensures
        scaled(p) < scaled(q),
    decreases q - p,
{
    let r = (q - 1) as nat;
    lemma_scaled_step(r);
    lemma_pow2_pos(binade(r));
    if p < r {
        lemma_scaled_increasing(p, r);
    }
}

/// A pattern that is not smaller is a magnitude that is not smaller.
pub proof fn lemma_scaled_monotone(p: nat, q: nat)
    requires
        p <= q,
    ensures
        scaled(p) <= scaled(q),
{
    if p < q {
        lemma_scaled_increasing(p, q);
    }
}

/// A ratio has at most one pattern just below it.
pub proof fn lemma_floor_unique(p: nat, q: nat, num: nat, den: nat)
    requires
        is_floor(p, num, den),
        is_floor(q, num, den),
    ensures
        p == q,
{
    if p < q {
        lemma_scaled_monotone(p + 1, q);
        assert(scaled(p + 1) * den <= scaled(q) * den) by (nonlinear_arith)
            requires
                scaled(p + 1) <= scaled(q),
        ;
    } else if q < p {
        lemma_scaled_monotone(q + 1, p);
        assert(scaled(q + 1) * den <= scaled(p) * den) by (nonlinear_arith)
            requires
                scaled(q + 1) <= scaled(p),
        ;
    }
}

/// Once the pattern just below a ratio is known, the nearest pattern is the
/// nearer of it and its successor.
pub proof fn lemma_nearest_from_floor(p: nat, num: nat, den: nat)
    requires
        is_floor(p, num, den),
    ensures
        nearest(num, den) == round_at(p, num, den),
        num < scaled(0x7f80_0000) * den,
{
    lemma_scaled_monotone(p + 1, 0x7f80_0000);
    assert(scaled(p + 1) * den <= scaled(0x7f80_0000) * den) by (nonlinear_arith)
        requires
            scaled(p + 1) <= scaled(0x7f80_0000),
    ;
    let c = choose|c: nat| is_floor(c, num, den);
    lemma_floor_unique(p, c, num, den);
}

/// A magnitude that is on the grid rounds to its own pattern.
pub proof fn lemma_nearest_exact(p: nat, den: nat)
    requires
        p <= 0x7f80_0000,
        den > 0,
    ensures
        nearest(scaled(p) * den, den) == p,
{
    if p < 0x7f80_0000 {
        lemma_scaled_increasing(p, p + 1);
        assert(scaled(p) * den < scaled(p + 1) * den) by (nonlinear_arith)
            requires
                scaled(p) < scaled(p + 1),
                den > 0,
        ;
        lemma_nearest_from_floor(p, scaled(p) * den, den);
    }
}

/// The magnitude of the pattern of infinity is 2^128, in units of 2^-149.
pub proof fn lemma_scaled_infinity()
    ensures
        scaled(0x7f80_0000) == pow2(277),
{
    lemma_pow2_values();
    assert(exponent_field(0x7f80_0000) == 255);
    assert(fraction_field(0x7f80_0000) == 0);
    vstd::arithmetic::power2::lemma_pow2_adds(23, 254);
}

/// How far the pattern `p` lies from the ratio `num / den`, in units of
/// `1 / den`.
pub open spec fn distance(p: nat, num: nat, den: nat) -> int {
    if scaled(p) * den <= num {
        num - scaled(p) * den
    } else {
        scaled(p) * den - num
    }
}

/// Zero has the magnitude zero.
pub proof fn lemma_scaled_zero()
    ensures
        scaled(0) == 0,
{
    assert(significand(0) == 0);
    assert(0 * pow2(binade(0)) == 0) by (nonlinear_arith);
}

/// A ratio below the magnitude of the pattern `hi` has a pattern just below
/// it: the rounding of every ratio under 2^128 is determined.
pub proof fn lemma_floor_exists(num: nat, den: nat, hi: nat)
    requires
        hi <= 0x7f80_0000,
        num < scaled(hi) * den,
    ensures
        exists|p: nat| is_floor(p, num, den),
    decreases hi,
{
    if hi == 0 {
        lemma_scaled_zero();
        assert(scaled(0) * den == 0) by (nonlinear_arith)
            requires
                scaled(0) == 0,
        ;
    } else {
        let p = (hi - 1) as nat;
        if scaled(p) * den <= num {
            assert(is_floor(p, num, den));
        } else {
            lemma_floor_exists(num, den, p);
        }
    }
}

/// Rounding goes to a nearest pattern: no pattern up to infinity lies nearer
/// to the ratio than the one it is rounded to, and where another lies as
/// near, the one taken is even.
pub proof fn lemma_nearest_is_closest(num: nat, den: nat, other: nat)
    requires
        den > 0,
        other <= 0x7f80_0000,
    ensures
        nearest(num, den) <= 0x7f80_0000,
        distance(nearest(num, den), num, den) <= distance(other, num, den),
        distance(nearest(num, den), num, den) == distance(other, num, den) ==> other == nearest(num, den)
            || nearest(num, den) % 2 == 0,
{
    let top: nat = 0x7f80_0000;
    if num >= scaled(top) * den {
        if other < top {
            lemma_scaled_increasing(other, top);
            assert(scaled(other) * den < scaled(top) * den) by (nonlinear_arith)
                requires
                    scaled(other) < scaled(top),
                    den > 0,
            ;
        }
    } else {
        lemma_floor_exists(num, den, top);
        let p = choose|p: nat| is_floor(p, num, den);
        lemma_nearest_from_floor(p, num, den);
        let r = nearest(num, den);
        lemma_scaled_increasing(p, p + 1);
        assert(scaled(p) * den < scaled(p + 1) * den) by (nonlinear_arith)
            requires
                scaled(p) < scaled(p + 1),
                den > 0,
        ;
        if other <= p {
            lemma_scaled_monotone(other, p);
            assert(scaled(other) * den <= scaled(p) * den) by (nonlinear_arith)
                requires
                    scaled(other) <= scaled(p),
            ;
            if other < p {
                lemma_scaled_increasing(other, p);
                assert(scaled(other) * den < scaled(p) * den) by (nonlinear_arith)
                    requires
                        scaled(other) < scaled(p),
                        den > 0,
                ;
            }
        } else {
            lemma_scaled_monotone(p + 1, other);
            assert(scaled(p + 1) * den <= scaled(other) * den) by (nonlinear_arith)
                requires
                    scaled(p + 1) <= scaled(other),
            ;
            if other > p + 1 {
                lemma_scaled_increasing(p + 1, other);
                assert(scaled(p + 1) * den < scaled(other) * den) by (nonlinear_arith)
                    requires
                        scaled(p + 1) < scaled(other),
                        den > 0,
                ;
            }
        }
    }
}

/// Zero is on the grid, and nothing but zero has the magnitude zero.
pub proof fn lemma_zero_magnitude(p: nat)
    ensures
        scaled(0) == 0,
        p > 0 ==> scaled(p) > 0,
        nearest(0, 1) == 0,
        nearest(0, pow2(149)) == 0,
{
    lemma_scaled_zero();
    if p > 0 {
        lemma_scaled_increasing(0, p);
    }
    lemma_pow2_pos(149);
    assert(scaled(0) * 1 == 0 && scaled(0) * pow2(149) == 0) by (nonlinear_arith)
        requires
            scaled(0) == 0,
    ;
    lemma_nearest_exact(0, 1);
    lemma_nearest_exact(0, pow2(149));
}

} // verus!
