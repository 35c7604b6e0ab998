//! The mapping from pixels to the complex plane: the square of side four
//! around the origin, sampled at the centres of the pixels.

use crate::binary32::add::{difference, lemma_sum_with_zero, negated, sum};
use crate::binary32::convert::{digits, integer_pattern, lemma_integer_on_grid, lemma_of_u32_exact, of_u32};
use crate::binary32::div::quotient;
use crate::binary32::grid::lemma_nearest_exact;
use crate::binary32::mul::{lemma_product_with_zero, product};
use crate::binary32::{scaled, Binary32};
use vstd::arithmetic::power2::{lemma2_to64, lemma_pow2_pos, pow2};
use crate::vector::Vector4;
use vstd::prelude::*;

verus! {

/// The bit pattern of four, the side of the sampled square.
pub const EXTENT_BITS: u32 = 0x4080_0000;

/// The bit pattern of two.
pub const HALVING_BITS: u32 = 0x4000_0000;

/// The distance between the centres of two neighbouring pixels, on an axis
/// of `n` pixels.
pub open spec fn pixel_pitch(n: u32) -> Binary32 {
    quotient(Binary32 { bits: 0x4080_0000 }, of_u32(n))
}

/// The position of pixel `k` on an axis of `n` pixels: `k` pitches and half a
/// pitch from the lower edge, which lies half the extent below the origin.
/// Each operation is rounded on its own, in this order.
pub open spec fn axis_position(k: u32, n: u32) -> Binary32 {
    let two = Binary32 { bits: 0x4000_0000 };
    let pitch = pixel_pitch(n);
    difference(
        sum(product(of_u32(k), pitch), quotient(pitch, two)),
        quotient(Binary32 { bits: 0x4080_0000 }, two),
    )
}

/// The coordinate of the pixel in `column` and `row` of an image of `width`
/// by `height` pixels. The two unused components are zero.
pub open spec fn coordinate(width: u32, height: u32, column: u32, row: u32) -> Vector4 {
    Vector4 {
        x: axis_position(column, width),
        y: axis_position(row, height),
        z: Binary32 { bits: 0 },
        w: Binary32 { bits: 0 },
    }
}

/// The coordinates of one image row, from the first column to the last.
pub open spec fn row_batch(width: u32, height: u32, row: u32) -> Seq<Vector4> {
    Seq::new(width as nat, |i: int| coordinate(width, height, i as u32, row))
}

/// The position of pixel `k` on an axis of `n` pixels.
pub fn axis(k: u32, n: u32) -> (r: Binary32)
    ensures
        r == axis_position(k, n),
{
    let extent = Binary32 { bits: EXTENT_BITS };
    let two = Binary32 { bits: HALVING_BITS };
    let pitch = extent.divided_by(Binary32::from_u32(n));
    Binary32::from_u32(k).times(pitch).plus(pitch.divided_by(two)).minus(extent.divided_by(two))
}

/// The coordinates of image row `row`, one per column and in column order.
/// The one row of an image of one pixel holds the origin.
pub fn row_coordinates(width: u32, height: u32, row: u32) -> (points: Vec<Vector4>)
    ensures
        points@ == row_batch(width, height, row),
        width == 1 && height == 1 && row == 0 ==> points@ == seq![Vector4::of_bits(0, 0, 0, 0)],
{
    proof {
        if width == 1 && height == 1 && row == 0 {
            lemma_single_pixel();
        }
    }
    let zero = Binary32 { bits: 0 };
    let y = axis(row, height);
    let mut points: Vec<Vector4> = Vec::new();
    let mut i: u32 = 0;
    while i < width
        invariant
            i <= width,
            points.len() == i,
            y == axis_position(row, height),
            zero.bits == 0,
            forall|j: int| 0 <= j < i ==> points[j] == coordinate(width, height, j as u32, row),
        decreases width - i,
    {
        let x = axis(i, width);
        points.push(Vector4 { x, y, z: zero, w: zero });
        i = i + 1;
    }
    assert(points@ =~= row_batch(width, height, row));
    points
}

/// One, two and four are on the grid, at their patterns.
proof fn lemma_small_powers()
    ensures
        of_u32(1) == (Binary32 { bits: 0x3f80_0000 }),
        scaled(0x3f80_0000) == pow2(149),
        scaled(0x4000_0000) == 2 * pow2(149),
        scaled(0x4080_0000) == 4 * pow2(149),
{
    lemma2_to64();
    reveal_with_fuel(digits, 4);
    assert(digits(1) == 1 && digits(2) == 2 && digits(4) == 3);
    assert(integer_pattern(1) == 0x3f80_0000);
    assert(integer_pattern(2) == 0x4000_0000);
    assert(integer_pattern(4) == 0x4080_0000);
    lemma_integer_on_grid(1);
    lemma_integer_on_grid(2);
    lemma_integer_on_grid(4);
    lemma_of_u32_exact(1);
}

/// Four halved is two, and four over one is four: the quotients that the
/// positions on a one-pixel axis are made of come out exact.
proof fn lemma_small_quotients()
    ensures
        quotient(Binary32 { bits: 0x4080_0000 }, Binary32 { bits: 0x3f80_0000 }) == (Binary32 { bits: 0x4080_0000 }),
        quotient(Binary32 { bits: 0x4080_0000 }, Binary32 { bits: 0x4000_0000 }) == (Binary32 { bits: 0x4000_0000 }),
{
    reveal(quotient);
    let unit = pow2(149);
    lemma_small_powers();
    lemma_pow2_pos(149);
    lemma_nearest_exact(0x4080_0000, unit);
    lemma_nearest_exact(0x4000_0000, 2 * unit);
    assert((4 * unit) * unit == (2 * unit) * (2 * unit)) by (nonlinear_arith);
    assert((Binary32 { bits: 0x4080_0000 }).magnitude() == 0x4080_0000);
    assert((Binary32 { bits: 0x4000_0000 }).magnitude() == 0x4000_0000);
    assert((Binary32 { bits: 0x3f80_0000 }).magnitude() == 0x3f80_0000);
}

/// On an axis of one pixel, the pixel sits at the origin: half a pitch of
/// four from the lower edge at minus two.
pub proof fn lemma_single_pixel_axis()
    ensures
        axis_position(0, 1) == (Binary32 { bits: 0 }),
{
    let zero = Binary32 { bits: 0 };
    let two = Binary32 { bits: 0x4000_0000 };
    let four = Binary32 { bits: 0x4080_0000 };
    lemma_small_powers();
    lemma_small_quotients();
    assert(pixel_pitch(1) == four);
    assert(of_u32(0) == zero) by {
        lemma_of_u32_exact(0);
    }
    assert(product(zero, four) == zero) by {
        lemma_product_with_zero(zero, four);
    }
    assert(sum(zero, two) == two) by {
        lemma_sum_with_zero(two);
    }
    assert(difference(two, two) == zero) by {
        reveal(sum);
        assert(negated(two) == Binary32 { bits: 0xc000_0000 });
        assert(two.value() + negated(two).value() == 0);
    }
}

/// An image of one pixel has one coordinate, the origin.
pub proof fn lemma_single_pixel()
    ensures
        row_batch(1, 1, 0) == seq![Vector4::of_bits(0, 0, 0, 0)],
{
    lemma_single_pixel_axis();
    assert(row_batch(1, 1, 0) =~= seq![Vector4::of_bits(0, 0, 0, 0)]);
}

} // verus!
