//! The image buffer that the samples are drawn into: an `image::RgbaImage`,
//! read here through three names for what it holds.

use image::{ImageBuffer, Rgba, RgbaImage};
use vstd::prelude::*;

verus! {

/// An image of four eight-bit channels a pixel, kept in an `image::RgbaImage`.
#[verifier::external_body]
pub struct Canvas {
    image: RgbaImage,
}

/// The width of a canvas, in pixels.
pub uninterp spec fn canvas_width(canvas: Canvas) -> nat;

/// The height of a canvas, in pixels.
pub uninterp spec fn canvas_height(canvas: Canvas) -> nat;

/// The channel values of a canvas: four to a pixel, red first, the pixels
/// row by row from the top left.
pub uninterp spec fn canvas_samples(canvas: Canvas) -> Seq<u8>;

/// The place of the first channel of pixel `(x, y)` among the samples of a
/// canvas `width` pixels wide.
pub open spec fn pixel_offset(width: nat, x: nat, y: nat) -> int {
    (4 * (y * width + x)) as int
}

/// The samples `s` with the four channels from `at` on replaced by `px`.
pub open spec fn with_pixel(s: Seq<u8>, at: int, px: [u8; 4]) -> Seq<u8> {
    s.update(at, px[0]).update(at + 1, px[1]).update(at + 2, px[2]).update(at + 3, px[3])
}

/// `ImageBuffer::new`: a buffer of the given size whose channels are all
/// zero. The call panics where the channels outnumber what a vector can
/// hold, so that case is left out.
#[verifier::external_body]
pub(crate) fn blank_canvas(width: u32, height: u32) -> (canvas: Canvas)
    requires
        4 * width * height <= isize::MAX,
    ensures
        canvas_width(canvas) == width,
        canvas_height(canvas) == height,
        canvas_samples(canvas) == Seq::new((4 * width * height) as nat, |k: int| 0u8),
{
    Canvas { image: ImageBuffer::new(width, height) }
}

/// `ImageBuffer::put_pixel`: writes the four channels of one pixel in place
/// and leaves the size and every other channel as they were. The call panics
/// for a pixel outside the buffer, so that case is left out.
#[verifier::external_body]
pub(crate) fn put_pixel(canvas: &mut Canvas, x: u32, y: u32, px: [u8; 4])
    requires
        x < canvas_width(*old(canvas)),
        y < canvas_height(*old(canvas)),
    ensures
        canvas_width(*final(canvas)) == canvas_width(*old(canvas)),
        canvas_height(*final(canvas)) == canvas_height(*old(canvas)),
        canvas_samples(*final(canvas)) == with_pixel(
            canvas_samples(*old(canvas)),
            pixel_offset(canvas_width(*old(canvas)), x as nat, y as nat),
            px,
        ),
{
    canvas.image.put_pixel(x, y, Rgba(px))
}

/// `ImageBuffer::as_raw`: the channel values, copied out.
#[verifier::external_body]
pub(crate) fn raw_samples(canvas: &Canvas) -> (samples: Vec<u8>)
    ensures
        samples@ == canvas_samples(*canvas),
{
    canvas.image.as_raw().clone()
}

/// `ImageBuffer::dimensions`: width and height.
#[verifier::external_body]
pub(crate) fn dimensions(canvas: &Canvas) -> (size: (u32, u32))
    ensures
        size.0 == canvas_width(*canvas),
        size.1 == canvas_height(*canvas),
{
    canvas.image.dimensions()
}

impl Canvas {
    /// The width in pixels.
    pub fn width(&self) -> (w: u32)
        ensures
            w == canvas_width(*self),
    {
        dimensions(self).0
    }

    /// The height in pixels.
    pub fn height(&self) -> (h: u32)
        ensures
            h == canvas_height(*self),
    {
        dimensions(self).1
    }

    /// The channel values, four to a pixel, row by row from the top left.
    pub fn samples(&self) -> (samples: Vec<u8>)
        ensures
            samples@ == canvas_samples(*self),
    {
        raw_samples(self)
    }
}

} // verus!
