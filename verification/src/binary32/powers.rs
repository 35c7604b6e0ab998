//! Powers of two: the executable table and the facts the arithmetic leans on.

use vstd::arithmetic::power2::{lemma2_to64, lemma2_to64_rest, lemma_pow2_adds, lemma_pow2_pos, lemma_pow2_strictly_increases, lemma_pow2_unfold, pow2};
use vstd::bits::lemma_u64_shl_is_mul;
use vstd::prelude::*;

verus! {

/// `pow2` never shrinks when its exponent grows.
pub proof fn lemma_pow2_monotone(a: nat, b: nat)
    requires
        a <= b,
    ensures
        pow2(a) <= pow2(b),
{
    if a < b {
        lemma_pow2_strictly_increases(a, b);
    }
}

/// The values of `pow2` that bound the machine words used here.
pub proof fn lemma_pow2_values()
    ensures
        pow2(0) == 1,
        pow2(1) == 2,
        pow2(2) == 4,
        pow2(3) == 8,
        pow2(8) == 0x100,
        pow2(23) == 0x80_0000,
        pow2(24) == 0x100_0000,
        pow2(26) == 0x400_0000,
        pow2(32) == 0x1_0000_0000,
        pow2(48) == 0x1_0000_0000_0000,
        pow2(64) == 0x1_0000_0000_0000_0000,
        pow2(96) == 0x1_0000_0000_0000_0000_0000_0000,
        pow2(120) == 0x100_0000_0000_0000_0000_0000_0000_0000,
        pow2(127) == 0x8000_0000_0000_0000_0000_0000_0000_0000,
{
    lemma2_to64();
    lemma2_to64_rest();
    lemma_pow2_adds(48, 48);
    lemma_pow2_adds(60, 60);
    lemma_pow2_adds(64, 63);
}

/// Doubling is one more in the exponent.
pub proof fn lemma_pow2_double(k: nat)
    ensures
        pow2(k + 1) == 2 * pow2(k),
        pow2(k) > 0,
{
    lemma_pow2_unfold(k + 1);
    lemma_pow2_pos(k);
}

/// Two to the `k`, for every `k` whose power fits the widest word.
pub fn power_of_two(k: u32) -> (r: u128)
    requires
        k <= 127,
    ensures
        r == pow2(k as nat),
{
    proof {
        lemma_pow2_values();
        lemma2_to64_rest();
    }
    if k < 64 {
        proof {
            lemma_pow2_monotone(k as nat, 63);
            lemma_u64_shl_is_mul(1, k as u64);
        }
        (1u64 << (k as u64)) as u128
    } else {
        let j: u64 = (k - 64) as u64;
        proof {
            lemma_pow2_monotone(j as nat, 63);
            lemma_u64_shl_is_mul(1, j);
            lemma_pow2_adds(j as nat, 64);
        }
        ((1u64 << j) as u128) * 0x1_0000_0000_0000_0000
    }
}

/// The number of binary digits of `q`: zero for zero, else the `l` with
/// `2^(l-1) <= q < 2^l`.
pub fn bit_length(q: u128) -> (l: u32)
    ensures
        l <= 128,
        q == 0 ==> l == 0,
        q > 0 ==> l >= 1 && pow2((l - 1) as nat) <= q,
        l < 128 ==> q < pow2(l as nat),
{
    let mut l: u32 = 0;
    let mut x: u128 = q;
    proof {
        lemma_pow2_values();
        lemma2_to64();
    }
    // sixteen digits at a time while that many are left, then one by one
    while x >= 0x1_0000
        invariant
            l <= 112,
            l % 16 == 0,
            pow2(l as nat) * x <= q,
            q < pow2(l as nat) * (x + 1),
            l == 0 ==> x == q,
            l >= 1 ==> pow2((l - 1) as nat) <= q,
            pow2(16) == 0x1_0000,
        decreases x,
    {
        let ghost w = pow2(l as nat);
        let ghost x0 = x;
        proof {
            lemma_pow2_values();
            lemma_pow2_adds(l as nat, 16);
            lemma_pow2_pos(l as nat);
            if l >= 112 {
                lemma_pow2_monotone(112, l as nat);
                lemma_pow2_adds(112, 16);
                lemma_pow2_adds(64, 48);
                lemma_pow2_adds(64, 64);
                assert(w * 0x1_0000 <= w * x0) by (nonlinear_arith)
                    requires
                        x0 >= 0x1_0000,
                        w > 0,
                ;
            }
        }
        x = x / 0x1_0000;
        l = l + 16;
        proof {
            let w2 = pow2(l as nat);
            assert(w2 * x <= q) by (nonlinear_arith)
                requires
                    w2 == w * 0x1_0000,
                    w * x0 <= q,
                    0x1_0000 * x <= x0,
                    w > 0,
            ;
            assert(q < w2 * (x + 1)) by (nonlinear_arith)
                requires
                    w2 == w * 0x1_0000,
                    q < w * (x0 + 1),
                    x0 + 1 <= 0x1_0000 * (x + 1),
                    w > 0,
            ;
            assert(w2 <= q) by (nonlinear_arith)
                requires
                    w2 * x <= q,
                    x >= 1,
            ;
            lemma_pow2_monotone((l - 1) as nat, l as nat);
        }
    }
    while x > 0
        invariant
            l <= 128,
            pow2(l as nat) * x <= q,
            q < pow2(l as nat) * (x + 1),
            l == 0 ==> x == q,
            l >= 1 ==> pow2((l - 1) as nat) <= q,
            x > 0 ==> l < 128,
        decreases x,
    {
        let ghost w = pow2(l as nat);
        let ghost x0 = x;
        proof {
            lemma_pow2_double(l as nat);
            assert(w <= q) by (nonlinear_arith)
                requires
                    w * x0 <= q,
                    x0 >= 1,
            ;
        }
        x = x / 2;
        l = l + 1;
        proof {
            let w2 = pow2(l as nat);
            assert(w2 * x <= q) by (nonlinear_arith)
                requires
                    w2 == 2 * w,
                    w * x0 <= q,
                    2 * x <= x0,
                    w > 0,
            ;
            assert(q < w2 * (x + 1)) by (nonlinear_arith)
                requires
                    w2 == 2 * w,
                    q < w * (x0 + 1),
                    x0 + 1 <= 2 * (x + 1),
                    w > 0,
            ;
            if x > 0 && l >= 128 {
                lemma_pow2_monotone(128, l as nat);
                lemma_pow2_double(127);
                lemma_pow2_values();
                assert(w2 <= q) by (nonlinear_arith)
                    requires
                        w2 * x <= q,
                        x >= 1,
                ;
            }
        }
    }
    proof {
        let w = pow2(l as nat);
        assert(w * 1 == w && w * 0 == 0) by (nonlinear_arith);
        if l >= 1 {
            lemma_pow2_pos((l - 1) as nat);
        }
    }
    l
}

} // verus!
