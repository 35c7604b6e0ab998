//! Rounding to nearest, ties to even: from an exact result, bracketed between
//! two neighbouring multiples of a power of two, to the datum that stands for
//! it.

use crate::binary32::grid::{lemma_nearest_from_floor, lemma_scaled_infinity, lemma_scaled_step};
use crate::binary32::powers::{bit_length, lemma_pow2_double, lemma_pow2_monotone, lemma_pow2_values, power_of_two};
use crate::binary32::{assemble, binade, exponent_field, fraction_field, is_floor, nearest, pack, round_at, scaled, significand, Binary32, HIDDEN_BIT, INFINITY_PATTERN};
use vstd::arithmetic::div_mod::{lemma_basic_div, lemma_fundamental_div_mod, lemma_small_mod};
use vstd::arithmetic::power2::{lemma_pow2_adds, lemma_pow2_pos, pow2};
use vstd::prelude::*;

verus! {

/// The exact magnitude `num / den`, taken eightfold, lies in the half-open
/// interval from `q` to `q + 1` units of `2^e`; `sticky` says that it lies
/// strictly inside.
pub open spec fn bracketed(q: nat, e: nat, sticky: bool, num: nat, den: nat) -> bool {
    &&& den > 0
    &&& q * (pow2(e) * den) <= 8 * num
    &&& 8 * num < (q + 1) * (pow2(e) * den)
    &&& sticky <==> q * (pow2(e) * den) < 8 * num
}

/// The arithmetic of the decision, over plain integers: `span` stands for `2^t`,
/// `w` for the unit of `q` and `u` for the unit of the kept digits `m`.
proof fn lemma_decision(q: int, m: int, frac: int, span: int, h: int, w: int, u: int, num: int)
    requires
        span == 2 * h,
        h >= 1,
        m >= 0,
        q == m * span + frac,
        0 <= frac < span,
        w > 0,
        8 * u == span * w,
        q * w <= 8 * num,
        8 * num < (q + 1) * w,
    ensures
        m * u <= num,
        num < (m + 1) * u,
        frac > h ==> 2 * num > (2 * m + 1) * u,
        frac < h ==> 2 * num < (2 * m + 1) * u,
        frac == h && q * w < 8 * num ==> 2 * num > (2 * m + 1) * u,
        frac == h && q * w == 8 * num ==> 2 * num == (2 * m + 1) * u,
{
    // everything is compared after scaling by eight
    assert(8 * (m * u) == m * (span * w)) by (nonlinear_arith)
        requires
            8 * u == span * w,
    ;
    assert(8 * ((m + 1) * u) == (m + 1) * (span * w)) by (nonlinear_arith)
        requires
            8 * u == span * w,
    ;
    assert(8 * ((2 * m + 1) * u) == 2 * ((m * span + h) * w)) by (nonlinear_arith)
        requires
            8 * u == span * w,
            span == 2 * h,
    ;
    assert(m * (span * w) <= q * w) by (nonlinear_arith)
        requires
            q == m * span + frac,
            0 <= frac,
            w > 0,
    ;
    assert((q + 1) * w <= (m + 1) * (span * w)) by (nonlinear_arith)
        requires
            q == m * span + frac,
            frac < span,
            w > 0,
    ;
    if frac > h {
        assert((m * span + h) * w < q * w) by (nonlinear_arith)
            requires
                q == m * span + frac,
                frac > h,
                w > 0,
        ;
    }
    if frac < h {
        assert((q + 1) * w <= (m * span + h) * w) by (nonlinear_arith)
            requires
                q == m * span + frac,
                frac < h,
                w > 0,
        ;
    }
    if frac == h {
        assert((m * span + h) * w == q * w) by (nonlinear_arith)
            requires
                q == m * span + frac,
                frac == h,
        ;
    }
}

/// Dropping the last digits of a bracket's lower end widens the bracket to
/// the coarser unit; the value lies strictly inside the wider bracket where
/// it did before or where a dropped digit was set.
pub proof fn lemma_shift_bracket(x: int, q: int, rem: int, span: int, unit: int, val: int)
    requires
        span > 0,
        x == q * span + rem,
        0 <= rem < span,
        unit > 0,
        x * unit <= val,
        val < (x + 1) * unit,
    ensures
        q * (span * unit) <= val,
        val < (q + 1) * (span * unit),
        q * (span * unit) < val <==> (rem != 0 || x * unit < val),
{
    assert(x * unit == q * (span * unit) + rem * unit) by (nonlinear_arith)
        requires
            x == q * span + rem,
    ;
    assert((x + 1) * unit <= (q + 1) * (span * unit)) by (nonlinear_arith)
        requires
            x == q * span + rem,
            rem < span,
            unit > 0,
    ;
    assert(rem * unit >= 0) by (nonlinear_arith)
        requires
            rem >= 0,
            unit > 0,
    ;
    if rem != 0 {
        assert(rem * unit > 0) by (nonlinear_arith)
            requires
                rem > 0,
                unit > 0,
        ;
    } else {
        assert(rem * unit == 0) by (nonlinear_arith)
            requires
                rem == 0,
        ;
    }
}

/// `x` without its last `r` binary digits, and whether any of them was set.
pub fn shift_right_sticky(x: u128, r: u32) -> (out: (u128, bool))
    requires
        x < pow2(127),
    ensures
        out.0 == x as nat / pow2(r as nat),
        out.1 == (x as nat % pow2(r as nat) != 0),
        x == out.0 * pow2(r as nat) + x as nat % pow2(r as nat),
        x as nat % pow2(r as nat) < pow2(r as nat),
{
    proof {
        lemma_pow2_pos(r as nat);
        lemma_fundamental_div_mod(x as int, pow2(r as nat) as int);
        let d = pow2(r as nat);
        assert((x as nat / d) * d == d * (x as nat / d)) by (nonlinear_arith);
    }
    if r >= 127 {
        proof {
            lemma_pow2_monotone(127, r as nat);
            lemma_basic_div(x as int, pow2(r as nat) as int);
            lemma_small_mod(x as nat, pow2(r as nat));
        }
        (0, x != 0)
    } else {
        let d: u128 = power_of_two(r);
        (x / d, x % d != 0)
    }
}

/// The pattern made of exponent field `ef` and kept digits `m` has the
/// magnitude `m * 2^b`, and its successor one unit more, where `b` is the
/// pattern's binade.
pub proof fn lemma_pattern_scaled(ef: nat, m: nat, p: nat)
    requires
        ef <= 254,
        ef == 0 ==> m < 0x80_0000 && p == m,
        ef >= 1 ==> 0x80_0000 <= m < 0x100_0000 && p == ef * 0x80_0000 + (m - 0x80_0000),
    ensures
        p < 0x7f80_0000,
        p % 2 == m % 2,
        binade(p) == (if ef == 0 { 0 } else { ef - 1 }),
        scaled(p) == m * pow2(binade(p)),
        scaled(p + 1) == (m + 1) * pow2(binade(p)),
{
    lemma_scaled_step(p);
    if ef == 0 {
        assert(exponent_field(p) == 0);
        assert(fraction_field(p) == m);
    } else {
        assert(exponent_field(p) == ef);
        assert(fraction_field(p) == m - 0x80_0000);
        assert(significand(p) == m);
    }
    let w = pow2(binade(p));
    assert((m + 1) * w == m * w + w) by (nonlinear_arith);
}

/// Rounds the exact magnitude `num / den` units of 2^-149, of which the
/// caller knows the bracket `q`, `e`, `sticky`, and gives it the sign.
pub(crate) fn round_pack(
    negative: bool,
    q: u128,
    e: u32,
    sticky: bool,
    Ghost(num): Ghost<nat>,
    Ghost(den): Ghost<nat>,
) -> (r: Binary32)
    requires
        bracketed(q as nat, e as nat, sticky, num, den),
        q < pow2(96),
        e <= 1000,
        sticky ==> e == 0 || q >= pow2(26),
    ensures
        r == pack(negative, nearest(num, den)),
{
    proof {
        lemma_pow2_values();
    }
    let mut q: u128 = q;
    let mut e: u32 = e;
    if !sticky {
        // an exact value may be rewritten over a smaller unit
        while e > 0 && q < 0x400_0000
            invariant
                bracketed(q as nat, e as nat, sticky, num, den),
                !sticky,
                q < pow2(96),
                e <= 1000,
                pow2(96) == 0x1_0000_0000_0000_0000_0000_0000,
            decreases e,
        {
            proof {
                lemma_pow2_double((e - 1) as nat);
                let w1 = pow2((e - 1) as nat) * den;
                let w = pow2(e as nat) * den;
                assert(w == 2 * w1) by (nonlinear_arith)
                    requires
                        w == pow2(e as nat) * den,
                        w1 == pow2((e - 1) as nat) * den,
                        pow2(e as nat) == 2 * pow2((e - 1) as nat),
                ;
                assert((2 * q) * w1 == q * w) by (nonlinear_arith)
                    requires
                        w == 2 * w1,
                ;
                assert((2 * q + 1) * w1 == (2 * q) * w1 + w1) by (nonlinear_arith);
                assert(w1 > 0) by (nonlinear_arith)
                    requires
                        w1 == pow2((e - 1) as nat) * den,
                        pow2((e - 1) as nat) > 0,
                        den > 0,
                ;
            }
            q = q * 2;
            e = e - 1;
        }
    }
    let l: u32 = bit_length(q);
    proof {
        if l > 96 {
            lemma_pow2_monotone(96, (l - 1) as nat);
        }
    }
    let ghost w = pow2(e as nat) * den;
    let t: u32;
    let ef: u32;
    if e == 0 && q < 0x400_0000 {
        t = 3;
        ef = 0;
    } else {
        proof {
            if l < 27 {
                lemma_pow2_monotone(l as nat, 26);
            }
        }
        t = l - 24;
        ef = l + e - 26;
    }
    if ef >= 255 {
        proof {
            // the value is at least 2^(l - 1 + e), which is 2^128 or more
            let lo = pow2((l - 1) as nat);
            lemma_pow2_adds((l - 1) as nat, e as nat);
            lemma_pow2_monotone(280, (l - 1 + e) as nat);
            lemma_pow2_adds(3, 277);
            lemma_scaled_infinity();
            let big = pow2((l - 1 + e) as nat);
            assert(big * den <= q * w) by (nonlinear_arith)
                requires
                    big == lo * pow2(e as nat),
                    w == pow2(e as nat) * den,
                    lo <= q,
            ;
            assert(8 * (pow2(277) * den) <= big * den) by (nonlinear_arith)
                requires
                    8 * pow2(277) <= big,
            ;
        }
        return assemble(negative, INFINITY_PATTERN);
    }
    let pw: u128 = power_of_two(t);
    proof {
        lemma_pow2_pos(t as nat);
        lemma_pow2_pos(e as nat);
    }
    let m: u128 = q / pw;
    let frac: u128 = q % pw;
    let half: u128 = power_of_two(t - 1);
    let up: bool = frac > half || (frac == half && (sticky || m % 2 == 1));
    proof {
        lemma_pow2_double((t - 1) as nat);
        lemma_fundamental_div_mod(q as int, pw as int);
        assert(q == m * pw + frac) by (nonlinear_arith)
            requires
                q == pw * m + frac,
        ;
        if ef >= 1 {
            // l digits, of which the leading twenty-four are kept
            lemma_pow2_adds(23, t as nat);
            lemma_pow2_adds(24, t as nat);
            assert(0x80_0000 <= m < 0x100_0000) by (nonlinear_arith)
                requires
                    q == m * pw + frac,
                    0 <= frac < pw,
                    0x80_0000 * pw <= q,
                    q < 0x100_0000 * pw,
            ;
        } else {
            assert(m < 0x80_0000);
        }
    }
    let p: u32 = if ef == 0 {
        m as u32
    } else {
        ef * HIDDEN_BIT + (m as u32 - HIDDEN_BIT)
    };
    proof {
        lemma_pattern_scaled(ef as nat, m as nat, p as nat);
        let b = binade(p as nat);
        let u = pow2(b) * den;
        // eight units of the kept digits make 2^t units of q
        lemma_pow2_adds(3, b);
        lemma_pow2_adds(t as nat, e as nat);
        assert(3 + b == t + e);
        assert(8 * u == pw * w) by (nonlinear_arith)
            requires
                u == pow2(b) * den,
                w == pow2(e as nat) * den,
                8 * pow2(b) == pw * pow2(e as nat),
        ;
        assert(w > 0) by (nonlinear_arith)
            requires
                w == pow2(e as nat) * den,
                pow2(e as nat) > 0,
                den > 0,
        ;
        lemma_decision(q as int, m as int, frac as int, pw as int, half as int, w as int, u as int, num as int);
        assert(scaled(p as nat) * den == m * u) by (nonlinear_arith)
            requires
                scaled(p as nat) == m * pow2(b),
                u == pow2(b) * den,
        ;
        assert(scaled((p + 1) as nat) * den == (m + 1) * u) by (nonlinear_arith)
            requires
                scaled((p + 1) as nat) == (m + 1) * pow2(b),
                u == pow2(b) * den,
        ;
        assert((2 * m + 1) * u == m * u + (m + 1) * u) by (nonlinear_arith);
        assert(is_floor(p as nat, num, den));
        lemma_nearest_from_floor(p as nat, num, den);
        assert(round_at(p as nat, num, den) == (if up { p + 1 } else { p as int }));
    }
    if up {
        assemble(negative, p + 1)
    } else {
        assemble(negative, p)
    }
}

} // verus!
