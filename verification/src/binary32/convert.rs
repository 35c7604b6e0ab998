//! Conversions between integers and data.

use crate::binary32::grid::{lemma_nearest_exact, lemma_scaled_zero};
use crate::binary32::powers::{lemma_pow2_double, lemma_pow2_monotone, lemma_pow2_values, power_of_two};
use crate::binary32::round::{lemma_pattern_scaled, round_pack};
use crate::binary32::{nearest, pack, scaled, Binary32};
use vstd::arithmetic::div_mod::{lemma_basic_div, lemma_div_by_multiple, lemma_div_multiples_vanish_quotient, lemma_mod_multiples_basic};
use vstd::arithmetic::power2::{lemma_pow2_adds, lemma_pow2_pos, lemma_pow2_strictly_increases, pow2};
use vstd::prelude::*;

verus! {

/// The datum nearest to the integer `v`.
#[verifier::opaque]
pub open spec fn of_u32(v: u32) -> Binary32 {
    pack(false, nearest(v as nat * pow2(149), 1))
}

/// The low eight bits of the integer part of a datum, in two's complement
/// where it is negative: the conversion truncates and wraps, it does not
/// clamp. A NaN or an infinity gives zero.
#[verifier::opaque]
pub open spec fn truncated_byte(a: Binary32) -> u8 {
    if !a.is_finite() {
        0
    } else {
        let whole = scaled(a.magnitude()) / pow2(149);
        if a.is_negative() {
            ((256 - whole % 256) % 256) as u8
        } else {
            (whole % 256) as u8
        }
    }
}

impl Binary32 {
    /// The datum nearest to the integer `v`.
    pub fn from_u32(v: u32) -> (r: Binary32)
        ensures
            r == of_u32(v),
    {
        reveal(of_u32);
        proof {
            lemma_pow2_values();
            lemma_pow2_adds(3, 149);
            lemma_pow2_pos(152);
            let w = pow2(152) * 1;
            let num = v as nat * pow2(149);
            assert(v * w == 8 * num) by (nonlinear_arith)
                requires
                    w == 8 * pow2(149),
                    num == v * pow2(149),
            ;
            assert((v + 1) * w == v * w + w) by (nonlinear_arith);
        }
        round_pack(false, v as u128, 152, false, Ghost(v as nat * pow2(149)), Ghost(1))
    }

    /// The low eight bits of the integer part, as `truncated_byte` states.
    pub fn truncate_to_byte(self) -> (r: u8)
        ensures
            r == truncated_byte(self),
    {
        reveal(truncated_byte);
        if !self.is_finite() {
            return 0;
        }
        let (m, e) = self.decompose();
        let ghost whole: nat = scaled(self.magnitude()) / pow2(149);
        proof {
            lemma_pow2_values();
            lemma_pow2_pos(149);
        }
        let low: u32;
        if e >= 157 {
            proof {
                // a multiple of 2^149 * 256
                lemma_pow2_adds((e - 149) as nat, 149);
                lemma_pow2_adds((e - 157) as nat, 8);
                let k = pow2((e - 149) as nat);
                let j = pow2((e - 157) as nat);
                assert(m * pow2(e as nat) == (m * k) * pow2(149)) by (nonlinear_arith)
                    requires
                        pow2(e as nat) == k * pow2(149),
                ;
                lemma_div_by_multiple((m * k) as int, pow2(149) as int);
                assert(m * k == (m * j) * 256) by (nonlinear_arith)
                    requires
                        k == j * 256,
                ;
                lemma_mod_multiples_basic((m * j) as int, 256);
            }
            low = 0;
        } else if e >= 149 {
            let k: u128 = power_of_two(e - 149);
            proof {
                lemma_pow2_adds((e - 149) as nat, 149);
                if e > 149 {
                    lemma_pow2_strictly_increases((e - 149) as nat, 8);
                }
                assert(m * pow2(e as nat) == (m * k) * pow2(149)) by (nonlinear_arith)
                    requires
                        pow2(e as nat) == k * pow2(149),
                ;
                lemma_div_by_multiple((m * k) as int, pow2(149) as int);
                assert(m * k < 0x100_0000 * 256) by (nonlinear_arith)
                    requires
                        m < 0x100_0000,
                        k <= 256,
                ;
            }
            low = ((m as u128 * k) % 256) as u32;
        } else if e <= 125 {
            proof {
                // less than one
                lemma_pow2_adds(24, e as nat);
                crate::binary32::powers::lemma_pow2_monotone((24 + e) as nat, 149);
                lemma_pow2_pos(e as nat);
                assert(m * pow2(e as nat) < pow2(24) * pow2(e as nat)) by (nonlinear_arith)
                    requires
                        m < pow2(24),
                        pow2(e as nat) > 0,
                ;
                lemma_basic_div((m * pow2(e as nat)) as int, pow2(149) as int);
            }
            low = 0;
        } else {
            let k: u128 = power_of_two(149 - e);
            proof {
                lemma_pow2_adds(e as nat, (149 - e) as nat);
                lemma_pow2_pos(e as nat);
                lemma_pow2_pos((149 - e) as nat);
                let pe = pow2(e as nat);
                assert(m * pe == pe * m) by (nonlinear_arith);
                lemma_div_multiples_vanish_quotient(pe as int, m as int, k as int);
            }
            low = ((m as u128 / k) % 256) as u32;
        }
        assert(low == whole % 256);
        if self.is_negative() {
            ((256 - low) % 256) as u8
        } else {
            low as u8
        }
    }
}

/// The number of binary digits of `n`.
pub open spec fn digits(n: nat) -> nat
    decreases n,
{
    if n == 0 {
        0
    } else {
        1 + digits(n / 2)
    }
}

/// A positive integer lies between the powers of two that its number of
/// digits names.
pub proof fn lemma_digits(n: nat)
    requires
        n > 0,
    ensures
        digits(n) >= 1,
        pow2((digits(n) - 1) as nat) <= n < pow2(digits(n)),
    decreases n,
{
    lemma_pow2_values();
    if n == 1 {
        assert(digits(0) == 0);
        assert(digits(1) == 1 + digits(0));
    } else {
        let h = n / 2;
        lemma_digits(h);
        let l = digits(h);
        lemma_pow2_double((l - 1) as nat);
        lemma_pow2_double(l);
    }
}

/// The magnitude pattern of the integer `n`, for `n` below 2^24: the `l`
/// digits of `n` moved to the top of the significand, under the exponent
/// field `126 + l`.
pub open spec fn integer_pattern(n: nat) -> nat {
    if n == 0 {
        0
    } else {
        let l = digits(n);
        ((126 + l) * 0x80_0000 + (n * pow2((24 - l) as nat) - 0x80_0000)) as nat
    }
}

/// Every integer below 2^24 is on the grid, at `integer_pattern`, and so
/// rounds to itself.
pub proof fn lemma_integer_on_grid(n: nat)
    requires
        n < 0x100_0000,
    ensures
        integer_pattern(n) < 0x7f80_0000,
        scaled(integer_pattern(n)) == n * pow2(149),
        nearest(n * pow2(149), 1) == integer_pattern(n),
{
    lemma_pow2_values();
    let p = integer_pattern(n);
    if n == 0 {
        lemma_scaled_zero();
        assert(0 * pow2(149) == 0) by (nonlinear_arith);
    } else {
        lemma_digits(n);
        let l = digits(n);
        if l > 24 {
            lemma_pow2_monotone(24, (l - 1) as nat);
        }
        let up = pow2((24 - l) as nat);
        let m = n * up;
        lemma_pow2_adds((l - 1) as nat, (24 - l) as nat);
        lemma_pow2_adds(l, (24 - l) as nat);
        lemma_pow2_pos((24 - l) as nat);
        assert(0x80_0000 <= m < 0x100_0000) by (nonlinear_arith)
            requires
                m == n * up,
                pow2((l - 1) as nat) <= n < pow2(l),
                pow2((l - 1) as nat) * up == 0x80_0000,
                pow2(l) * up == 0x100_0000,
                up > 0,
        ;
        lemma_pattern_scaled(126 + l, m, p);
        lemma_pow2_adds((24 - l) as nat, 125 + l);
        assert((24 - l) + (125 + l) == 149);
        assert(m * pow2(125 + l) == n * pow2(149)) by (nonlinear_arith)
            requires
                m == n * up,
                up * pow2(125 + l) == pow2(149),
        ;
    }
    lemma_nearest_exact(p, 1);
    assert(scaled(p) * 1 == scaled(p));
}

/// An integer below 2^24 converts without rounding: the datum has the
/// integer's value, which is `v * 2^149` units.
pub proof fn lemma_of_u32_exact(v: u32)
    requires
        v < 0x100_0000,
    ensures
        of_u32(v) == pack(false, integer_pattern(v as nat)),
        of_u32(v).is_finite(),
        !of_u32(v).is_negative(),
        of_u32(v).value() == v * pow2(149),
{
    reveal(of_u32);
    lemma_integer_on_grid(v as nat);
}

/// Conversion to a byte undoes conversion from an integer, up to the
/// wrapping: the datum of the integer `n` gives `n` modulo 256.
pub proof fn lemma_truncated_integer(n: nat)
    requires
        n < 0x100_0000,
    ensures
        truncated_byte(pack(false, integer_pattern(n))) == n % 256,
{
    reveal(truncated_byte);
    lemma_integer_on_grid(n);
    lemma_pow2_pos(149);
    lemma_div_by_multiple(n as int, pow2(149) as int);
}

} // verus!
