//! The escape-time evaluator: how quickly the orbit of zero under
//! `z -> z * z + c` leaves the disc of radius two, computed in binary32.

use crate::binary32::add::{difference, lemma_sum_with_zero, negated, sum};
use crate::binary32::convert::{integer_pattern, lemma_integer_on_grid, lemma_of_u32_exact, of_u32};
use crate::binary32::grid::{lemma_nearest_exact, lemma_scaled_zero, lemma_zero_magnitude};
use crate::binary32::mul::{lemma_product_with_zero, product};
use crate::binary32::order::greater;
use crate::binary32::{pack, scaled, Binary32};
use crate::vector::Vector4;
use vstd::arithmetic::power2::{lemma2_to64, lemma_pow2_adds, lemma_pow2_pos, pow2};
use vstd::prelude::*;

verus! {

/// The number of iterations after which a point counts as bounded.
pub const MAX_ITER: u32 = 256;

/// The bit pattern of four, the squared radius beyond which an orbit has escaped.
pub const ESCAPE_THRESHOLD_BITS: u32 = 0x4080_0000;

/// The bit pattern of two.
pub const TWO_BITS: u32 = 0x4000_0000;

/// The bit pattern of five, the brightness gained per iteration.
pub const BRIGHTNESS_STEP_BITS: u32 = 0x40a0_0000;

/// The bit pattern of 250, the alpha of every sample.
pub const ALPHA_BITS: u32 = 0x437a_0000;

/// Positive zero.
pub open spec fn zero() -> Binary32 {
    Binary32 { bits: 0 }
}

/// One step of the iteration from `z`, for the coordinate `c`: the real part
/// `(a * a - b * b) + c.x` and the imaginary part `((2 * a) * b) + c.y`, each
/// operation rounded on its own.
pub open spec fn step(z: (Binary32, Binary32), c: Vector4) -> (Binary32, Binary32) {
    let a = z.0;
    let b = z.1;
    (
        sum(difference(product(a, a), product(b, b)), c.x),
        sum(product(product(Binary32 { bits: 0x4000_0000 }, a), b), c.y),
    )
}

/// The squared distance of `z` from the origin, rounded.
pub open spec fn norm(z: (Binary32, Binary32)) -> Binary32 {
    sum(product(z.0, z.0), product(z.1, z.1))
}

/// The orbit of zero after `n` steps.
pub open spec fn orbit(c: Vector4, n: nat) -> (Binary32, Binary32)
    decreases n,
{
    if n == 0 {
        (zero(), zero())
    } else {
        step(orbit(c, (n - 1) as nat), c)
    }
}

/// Whether iteration `i`, counted from zero, takes the orbit beyond the
/// threshold.
pub open spec fn escapes_at(c: Vector4, i: nat) -> bool {
    greater(norm(orbit(c, i + 1)), Binary32 { bits: 0x4080_0000 })
}

/// The first iteration from `from` on at which the orbit escapes, if one
/// below the limit does.
pub open spec fn first_escape(c: Vector4, from: nat) -> Option<nat>
    decreases 256 - from,
{
    if from >= 256 {
        None
    } else if escapes_at(c, from) {
        Some(from)
    } else {
        first_escape(c, from + 1)
    }
}

/// The iteration at which the orbit of `c` escapes; `None` for a point that
/// stays bounded through all 256 iterations.
pub open spec fn escape_iteration(c: Vector4) -> Option<nat> {
    first_escape(c, 0)
}

/// The sample for an escape time: brightness five times the iteration in red
/// and green for a point that escaped, black for one that stayed bounded;
/// blue zero and alpha 250 in both.
pub open spec fn shade(t: Option<nat>) -> Vector4 {
    match t {
        Some(i) => {
            let g = product(of_u32(i as u32), Binary32 { bits: 0x40a0_0000 });
            Vector4 { x: g, y: g, z: zero(), w: Binary32 { bits: 0x437a_0000 } }
        },
        None => Vector4 { x: zero(), y: zero(), z: zero(), w: Binary32 { bits: 0x437a_0000 } },
    }
}

/// The sample of a coordinate.
pub open spec fn sample(c: Vector4) -> Vector4 {
    shade(escape_iteration(c))
}

/// The samples of a batch, one per coordinate and in the same order.
pub open spec fn samples(batch: Seq<Vector4>) -> Seq<Vector4> {
    Seq::new(batch.len(), |i: int| sample(batch[i]))
}

/// The iteration at which the orbit of `c` escapes, `None` where it stays
/// bounded. The origin stays bounded, and a coordinate whose squared
/// distance from the origin is greater than four escapes at once.
pub fn escape_time(c: &Vector4) -> (r: Option<u32>)
    ensures
        match r {
            Some(i) => escape_iteration(*c) == Some(i as nat),
            None => escape_iteration(*c) is None,
        },
        c.x.is_zero() && c.y.is_zero() ==> r is None,
        greater(norm((c.x, c.y)), Binary32 { bits: 0x4080_0000 }) ==> r == Some(0u32),
{
    proof {
        if c.x.is_zero() && c.y.is_zero() {
            lemma_origin_is_bounded(*c);
        }
        if greater(norm((c.x, c.y)), Binary32 { bits: 0x4080_0000 }) {
            lemma_outside_escapes_at_once(*c);
        }
    }
    let two = Binary32 { bits: TWO_BITS };
    let threshold = Binary32 { bits: ESCAPE_THRESHOLD_BITS };
    let mut a = Binary32 { bits: 0 };
    let mut b = Binary32 { bits: 0 };
    let mut i: u32 = 0;
    while i < MAX_ITER
        invariant
            i <= 256,
            (a, b) == orbit(*c, i as nat),
            escape_iteration(*c) == first_escape(*c, i as nat),
            c.x.is_zero() && c.y.is_zero() ==> escape_iteration(*c) is None,
            greater(norm((c.x, c.y)), Binary32 { bits: 0x4080_0000 }) ==> escape_iteration(*c) == Some(0nat),
            two.bits == 0x4000_0000,
            threshold.bits == 0x4080_0000,
        decreases 256 - i,
    {
        let a2 = a.times(a).minus(b.times(b)).plus(c.x);
        let b2 = two.times(a).times(b).plus(c.y);
        a = a2;
        b = b2;
        assert((a, b) == orbit(*c, (i + 1) as nat));
        let d = a.times(a).plus(b.times(b));
        if d.greater_than(threshold) {
            return Some(i);
        }
        i = i + 1;
    }
    None
}

/// The sample for an escape time.
pub fn shade_of(t: Option<u32>) -> (r: Vector4)
    ensures
        r == shade(
            match t {
                Some(i) => Some(i as nat),
                None => None,
            },
        ),
{
    let zero = Binary32 { bits: 0 };
    let alpha = Binary32 { bits: ALPHA_BITS };
    match t {
        Some(i) => {
            let g = Binary32::from_u32(i).times(Binary32 { bits: BRIGHTNESS_STEP_BITS });
            Vector4 { x: g, y: g, z: zero, w: alpha }
        },
        None => Vector4 { x: zero, y: zero, z: zero, w: alpha },
    }
}

/// The sample of the coordinate `c`. The origin has the black of the bounded
/// points, and so has a coordinate whose squared distance from the origin is
/// greater than four, which escapes with the brightness zero.
pub fn evaluate(c: &Vector4) -> (r: Vector4)
    ensures
        r == sample(*c),
        c.x.is_zero() && c.y.is_zero() ==> r == Vector4::of_bits(0, 0, 0, 0x437a_0000),
        greater(norm((c.x, c.y)), Binary32 { bits: 0x4080_0000 }) ==> r == Vector4::of_bits(0, 0, 0, 0x437a_0000),
{
    let t = escape_time(c);
    proof {
        lemma_escape_below_limit(*c, 0);
        if c.x.is_zero() && c.y.is_zero() {
            lemma_origin_is_bounded(*c);
        }
        if greater(norm((c.x, c.y)), Binary32 { bits: 0x4080_0000 }) {
            lemma_outside_escapes_at_once(*c);
        }
    }
    shade_of(t)
}

/// An escape is found below the limit or not at all.
pub proof fn lemma_escape_below_limit(c: Vector4, from: nat)
    ensures
        first_escape(c, from) matches Some(i) ==> from <= i < 256 && escapes_at(c, i),
    decreases 256 - from,
{
    if from < 256 && !escapes_at(c, from) {
        lemma_escape_below_limit(c, from + 1);
    }
}

/// Evaluates a whole batch on the host: one sample per coordinate, in the
/// order of the batch.
pub fn solve_mandel(points: &Vec<Vector4>) -> (res: Vec<Vector4>)
    ensures
        res@ == samples(points@),
{
    let mut res: Vec<Vector4> = Vec::new();
    let mut k: usize = 0;
    while k < points.len()
        invariant
            k <= points.len(),
            res.len() == k,
            forall|j: int| 0 <= j < k ==> res[j] == sample(points[j]),
        decreases points.len() - k,
    {
        let r = evaluate(&points[k]);
        res.push(r);
        k = k + 1;
    }
    assert(res@ =~= samples(points@));
    res
}

/// A step from zero lands on the coordinate, each part added to positive
/// zero: the squares and the doubled product of zero vanish.
pub proof fn lemma_step_from_zero(c: Vector4)
    ensures
        step((zero(), zero()), c) == (sum(zero(), c.x), sum(zero(), c.y)),
{
    let two = Binary32 { bits: 0x4000_0000 };
    assert(product(zero(), zero()) == zero()) by {
        lemma_product_with_zero(zero(), zero());
    }
    assert(product(two, zero()) == zero()) by {
        lemma_product_with_zero(two, zero());
    }
    assert(difference(zero(), zero()) == zero()) by {
        reveal(sum);
        lemma_scaled_zero();
        assert(negated(zero()) == Binary32 { bits: 0x8000_0000 });
    }
}

/// From the origin of the plane the orbit never moves.
pub proof fn lemma_orbit_at_origin(c: Vector4, n: nat)
    requires
        c.x.is_zero(),
        c.y.is_zero(),
    ensures
        orbit(c, n) == (zero(), zero()),
    decreases n,
{
    if n > 0 {
        lemma_orbit_at_origin(c, (n - 1) as nat);
        lemma_step_from_zero(c);
        assert(sum(zero(), c.x) == zero()) by {
            lemma_sum_with_zero(c.x);
        }
        assert(sum(zero(), c.y) == zero()) by {
            lemma_sum_with_zero(c.y);
        }
    }
}

/// The origin is in the set: a coordinate whose real and imaginary part are
/// zero, of either sign, never escapes, and its sample is the black of the
/// bounded points. The two unused components do not matter.
pub proof fn lemma_origin_is_bounded(c: Vector4)
    requires
        c.x.is_zero(),
        c.y.is_zero(),
    ensures
        escape_iteration(c) is None,
        sample(c) == Vector4::of_bits(0, 0, 0, 0x437a_0000),
{
    lemma_never_escapes_at_origin(c, 0);
}

proof fn lemma_never_escapes_at_origin(c: Vector4, from: nat)
    requires
        c.x.is_zero(),
        c.y.is_zero(),
    ensures
        first_escape(c, from) is None,
    decreases 256 - from,
{
    if from < 256 {
        lemma_orbit_at_origin(c, from + 1);
        assert(norm((zero(), zero())) == zero()) by {
            lemma_product_with_zero(zero(), zero());
            lemma_sum_with_zero(zero());
        }
        assert(!greater(zero(), Binary32 { bits: 0x4080_0000 })) by {
            reveal(greater);
            lemma_zero_magnitude(0x4080_0000);
        }
        assert(!escapes_at(c, from));
        lemma_never_escapes_at_origin(c, from + 1);
    }
}

/// After one step the orbit is as far from the origin as the coordinate
/// itself: the first squared distance that the iteration tests is that of
/// `c`.
pub proof fn lemma_first_norm(c: Vector4)
    ensures
        norm(orbit(c, 1)) == norm((c.x, c.y)),
{
    assert(orbit(c, 0) == (zero(), zero()));
    assert(orbit(c, 1) == step(orbit(c, 0), c));
    lemma_step_from_zero(c);
    lemma_square_of_cleared(c.x);
    lemma_square_of_cleared(c.y);
}

/// Squaring does not see what adding to positive zero changes.
proof fn lemma_square_of_cleared(x: Binary32)
    ensures
        product(sum(zero(), x), sum(zero(), x)) == product(x, x),
{
    reveal(product);
    lemma_sum_with_zero(x);
}

/// The sample of an escape at iteration zero has the brightness zero.
pub proof fn lemma_shade_of_first_iteration()
    ensures
        shade(Some(0nat)) == Vector4::of_bits(0, 0, 0, 0x437a_0000),
{
    assert(of_u32(0) == zero()) by {
        lemma_of_u32_exact(0);
    }
    assert(product(zero(), Binary32 { bits: 0x40a0_0000 }) == zero()) by {
        lemma_product_with_zero(zero(), Binary32 { bits: 0x40a0_0000 });
    }
}

/// A coordinate outside the disc of radius two escapes at once: where the
/// sum of the squares of its two parts, computed in binary32, is greater
/// than four, the escape comes at iteration zero, and the sample has the
/// brightness zero.
pub proof fn lemma_outside_escapes_at_once(c: Vector4)
    requires
        greater(norm((c.x, c.y)), Binary32 { bits: 0x4080_0000 }),
    ensures
        escape_iteration(c) == Some(0nat),
        sample(c) == Vector4::of_bits(0, 0, 0, 0x437a_0000),
{
    assert(escapes_at(c, 0)) by {
        lemma_first_norm(c);
    }
    assert(first_escape(c, 0) == Some(0nat));
    lemma_shade_of_first_iteration();
}

/// The brightness of an escape is exact: five times the iteration, a whole
/// number that binary32 holds without rounding.
pub proof fn lemma_brightness(i: nat)
    requires
        i < 256,
    ensures
        product(of_u32(i as u32), Binary32 { bits: 0x40a0_0000 }) == pack(false, integer_pattern(5 * i)),
{
    reveal(product);
    let five = Binary32 { bits: 0x40a0_0000 };
    let unit = pow2(149);
    lemma_of_u32_exact(i as u32);
    lemma_integer_on_grid(i);
    lemma_integer_on_grid(5 * i);
    assert(scaled(five.magnitude()) == 5 * unit) by {
        lemma2_to64();
        lemma_pow2_adds(21, 128);
        assert(five.magnitude() == 0x40a0_0000);
        assert(crate::binary32::exponent_field(0x40a0_0000) == 129);
        assert(crate::binary32::fraction_field(0x40a0_0000) == 0x20_0000);
        assert(0xa0_0000 * pow2(128) == 5 * unit) by (nonlinear_arith)
            requires
                unit == 0x20_0000 * pow2(128),
        ;
    }
    let a = scaled(integer_pattern(i));
    let b = scaled(five.magnitude());
    assert(a * b == scaled(integer_pattern(5 * i)) * unit) by (nonlinear_arith)
        requires
            a == i * unit,
            b == 5 * unit,
            scaled(integer_pattern(5 * i)) == (5 * i) * unit,
    ;
    lemma_pow2_pos(149);
    lemma_nearest_exact(integer_pattern(5 * i), unit);
}

} // verus!
