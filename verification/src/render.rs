//! Rendering an image row by row: which batch goes out next, where the
//! results of a dispatch land, and what a failed dispatch leaves behind.

use crate::binary32::convert::{integer_pattern, lemma_integer_on_grid, lemma_truncated_integer, truncated_byte};
use crate::binary32::{pack, Binary32};
use crate::canvas::{blank_canvas, canvas_height, canvas_samples, canvas_width, pixel_offset, put_pixel, with_pixel, Canvas};
use crate::dispatch::{dispatch_on_host, DispatchError};
use crate::evaluator::{escape_iteration, lemma_brightness, lemma_escape_below_limit, lemma_origin_is_bounded, sample, samples, shade};
use crate::plane::{coordinate, lemma_single_pixel_axis, row_batch, row_coordinates};
use crate::vector::Vector4;
use vstd::arithmetic::div_mod::lemma_fundamental_div_mod_converse;
use vstd::prelude::*;

verus! {

/// Why an image cannot be rendered.
#[derive(Clone, Copy, Debug, PartialEq, Eq, Structural)]
pub enum RenderError {
    /// The width or the height is zero.
    EmptyImage,
    /// A row is longer than the longest batch.
    RowTooWide,
    /// The image has more channels than a buffer can hold.
    ImageTooLarge,
}

/// What is known of a rendering under way.
pub struct RenderState {
    /// The width of the image in pixels.
    pub width: nat,
    /// The height of the image in pixels.
    pub height: nat,
    /// The rows still to come; they are rendered from the last row up.
    pub rows_left: nat,
    /// The channel values, four to a pixel, row by row from the top left.
    pub pixels: Seq<u8>,
}

/// Whether an image of this size can be rendered, and if not, why.
pub open spec fn checked_size(width: u32, height: u32) -> Result<(), RenderError> {
    if width == 0 || height == 0 {
        Err(RenderError::EmptyImage)
    } else if width > 65536 {
        Err(RenderError::RowTooWide)
    } else if 4 * width * height > isize::MAX {
        Err(RenderError::ImageTooLarge)
    } else {
        Ok(())
    }
}

/// The four channel bytes of a sample: each component converted by
/// truncation.
pub open spec fn pixel_of(v: Vector4) -> Seq<u8> {
    seq![truncated_byte(v.x), truncated_byte(v.y), truncated_byte(v.z), truncated_byte(v.w)]
}

/// The channel values `pixels` with those of row `row` replaced by the
/// pixels of `results`, one per column.
pub open spec fn with_row(pixels: Seq<u8>, width: nat, row: nat, results: Seq<Vector4>) -> Seq<u8> {
    Seq::new(
        pixels.len(),
        |k: int|
            if 4 * (row * width) <= k < 4 * (row * width) + 4 * width {
                pixel_of(results[(k - 4 * (row * width)) / 4])[k % 4]
            } else {
                pixels[k]
            },
    )
}

/// The state after the outcome of the dispatch of the next row: results that
/// are as many as the row is wide are drawn into the row; a failure, or
/// results of another length, leave the row as it was. Either way the row is
/// done.
pub open spec fn accepted(s: RenderState, outcome: Result<Seq<Vector4>, DispatchError>) -> RenderState {
    if s.rows_left == 0 {
        s
    } else {
        let row = (s.rows_left - 1) as nat;
        RenderState {
            width: s.width,
            height: s.height,
            rows_left: row,
            pixels: match outcome {
                Ok(results) => if results.len() == s.width {
                    with_row(s.pixels, s.width, row, results)
                } else {
                    s.pixels
                },
                Err(_) => s.pixels,
            },
        }
    }
}

/// The four channel bytes of the pixel in `column` and `row`: the sample of
/// its coordinate, converted.
#[verifier::opaque]
pub open spec fn rendered_pixel(width: u32, height: u32, column: u32, row: u32) -> Seq<u8> {
    pixel_of(sample(coordinate(width, height, column, row)))
}

/// The channel values of the finished image: each pixel is the sample of
/// its coordinate, converted to bytes.
pub open spec fn rendering(width: u32, height: u32) -> Seq<u8> {
    Seq::new(
        (4 * width * height) as nat,
        |k: int|
            rendered_pixel(width, height, ((k / 4) % (width as int)) as u32, ((k / 4) / (width as int)) as u32)[k
                % 4],
    )
}

/// The four channel bytes of a sample.
pub fn to_pixel(v: &Vector4) -> (px: [u8; 4])
    ensures
        px@ == pixel_of(*v),
{
    let px = [v.x.truncate_to_byte(), v.y.truncate_to_byte(), v.z.truncate_to_byte(), v.w.truncate_to_byte()];
    assert(px@ =~= pixel_of(*v));
    px
}

/// A rendering under way: the image so far and the rows still to come.
pub struct Renderer {
    width: u32,
    height: u32,
    rows_left: u32,
    canvas: Canvas,
}

impl View for Renderer {
    type V = RenderState;

    closed spec fn view(&self) -> RenderState {
        RenderState {
            width: self.width as nat,
            height: self.height as nat,
            rows_left: self.rows_left as nat,
            pixels: canvas_samples(self.canvas),
        }
    }
}

impl Renderer {
    /// The image has the size that was asked for, its rows are batches of
    /// admissible length, and no more rows are left than it has.
    pub closed spec fn wf(&self) -> bool {
        &&& canvas_width(self.canvas) == self.width
        &&& canvas_height(self.canvas) == self.height
        &&& canvas_samples(self.canvas).len() == 4 * self.width * self.height
        &&& checked_size(self.width, self.height) is Ok
        &&& self.rows_left <= self.height
    }

    /// What `wf` says of the view.
    pub proof fn lemma_wf(&self)
        requires
            self.wf(),
        ensures
            1 <= self@.width <= 65536,
            1 <= self@.height,
            self@.rows_left <= self@.height,
            self@.pixels.len() == 4 * self@.width * self@.height,
    {
    }

    /// A rendering of an image of `width` by `height` pixels, with every
    /// row still to come and every channel zero. An image without pixels,
    /// one wider than the longest batch and one too large for a buffer are
    /// refused, in this order.
    pub fn new(width: u32, height: u32) -> (r: Result<Renderer, RenderError>)
        ensures
            match r {
                Ok(s) => {
                    &&& checked_size(width, height) is Ok
                    &&& s.wf()
                    &&& s@ == (RenderState {
                        width: width as nat,
                        height: height as nat,
                        rows_left: height as nat,
                        pixels: Seq::new((4 * width * height) as nat, |k: int| 0u8),
                    })
                },
                Err(e) => checked_size(width, height) == Err::<(), RenderError>(e),
            },
    {
        if width == 0 || height == 0 {
            return Err(RenderError::EmptyImage);
        }
        if width > 65536 {
            return Err(RenderError::RowTooWide);
        }
        assert(4 * width * height <= 4 * 65536 * 0xffff_ffff) by (nonlinear_arith)
            requires
                width <= 65536,
                height <= 0xffff_ffff,
        ;
        let channels: u64 = 4 * (width as u64) * (height as u64);
        if channels > isize::MAX as u64 {
            return Err(RenderError::ImageTooLarge);
        }
        let canvas = blank_canvas(width, height);
        Ok(Renderer { width, height, rows_left: height, canvas })
    }

    /// The width of the image in pixels.
    pub fn width(&self) -> (w: u32)
        ensures
            w == self@.width,
    {
        self.width
    }

    /// The height of the image in pixels.
    pub fn height(&self) -> (h: u32)
        ensures
            h == self@.height,
    {
        self.height
    }

    /// The row whose batch goes out next, `None` once every row is done.
    pub fn next_row(&self) -> (r: Option<u32>)
        ensures
            match r {
                Some(row) => self@.rows_left == row + 1,
                None => self@.rows_left == 0,
            },
    {
        if self.rows_left == 0 {
            None
        } else {
            Some(self.rows_left - 1)
        }
    }

    /// The batch to dispatch next: the coordinates of the next row, `None`
    /// once every row is done.
    pub fn next_batch(&self) -> (r: Option<Vec<Vector4>>)
        ensures
            match r {
                Some(batch) => self@.rows_left >= 1 && batch@ == row_batch(
                    self@.width as u32,
                    self@.height as u32,
                    (self@.rows_left - 1) as u32,
                ),
                None => self@.rows_left == 0,
            },
    {
        if self.rows_left == 0 {
            None
        } else {
            Some(row_coordinates(self.width, self.height, self.rows_left - 1))
        }
    }

    /// Takes the outcome of the dispatch of the next row, as `accepted`
    /// states, and says whether the row was drawn.
    pub fn accept(&mut self, outcome: &Result<Vec<Vector4>, DispatchError>) -> (drawn: bool)
        requires
            old(self).wf(),
        ensures
            final(self).wf(),
            final(self)@ == accepted(
                old(self)@,
                match *outcome {
                    Ok(results) => Ok(results@),
                    Err(e) => Err(e),
                },
            ),
            drawn == (old(self)@.rows_left > 0 && (*outcome matches Ok(results) && results@.len()
                == old(self)@.width)),
    {
        if self.rows_left == 0 {
            return false;
        }
        let row: u32 = self.rows_left - 1;
        self.rows_left = row;
        match outcome {
            Ok(results) => {
                if results.len() == self.width as usize {
                    self.draw_row(row, results);
                    true
                } else {
                    false
                }
            },
            Err(_) => false,
        }
    }

    /// Draws the pixels of `results` into row `row`.
    fn draw_row(&mut self, row: u32, results: &Vec<Vector4>)
        requires
            old(self).wf(),
            row < old(self).height,
            results@.len() == old(self).width,
        ensures
            final(self).wf(),
            final(self).width == old(self).width,
            final(self).height == old(self).height,
            final(self).rows_left == old(self).rows_left,
            canvas_samples(final(self).canvas) == with_row(
                canvas_samples(old(self).canvas),
                old(self).width as nat,
                row as nat,
                results@,
            ),
    {
        let width: u32 = self.width;
        let ghost before = canvas_samples(self.canvas);
        let ghost base: int = (4 * (row as nat * width as nat)) as int;
        proof {
            assert(base + 4 * width <= 4 * width * self.height) by (nonlinear_arith)
                requires
                    base == 4 * (row as nat * width as nat),
                    row < self.height,
            ;
        }
        let mut i: u32 = 0;
        while i < width
            invariant
                i <= width,
                width == self.width,
                results@.len() == width,
                row < self.height,
                self.height == old(self).height,
                self.width == old(self).width,
                self.rows_left == old(self).rows_left,
                checked_size(self.width, self.height) is Ok,
                canvas_width(self.canvas) == width,
                canvas_height(self.canvas) == self.height,
                base == 4 * (row as nat * width as nat),
                base + 4 * width <= before.len(),
                before.len() == 4 * self.width * self.height,
                canvas_samples(self.canvas).len() == before.len(),
                forall|k: int|
                    0 <= k < before.len() ==> canvas_samples(self.canvas)[k] == (if base <= k < base + 4 * i {
                        pixel_of(results@[(k - base) / 4])[k % 4]
                    } else {
                        before[k]
                    }),
            decreases width - i,
        {
            let px = to_pixel(&results[i as usize]);
            let ghost prior = canvas_samples(self.canvas);
            put_pixel(&mut self.canvas, i, row, px);
            proof {
                let at = pixel_offset(width as nat, i as nat, row as nat);
                assert(at == base + 4 * i) by (nonlinear_arith)
                    requires
                        at == 4 * (row as nat * width as nat + i as nat),
                        base == 4 * (row as nat * width as nat),
                ;
                let now = canvas_samples(self.canvas);
                assert(now == with_pixel(prior, at, px));
                assert forall|k: int| 0 <= k < before.len() implies now[k] == (if base <= k < base + 4 * (i
                    + 1) {
                    pixel_of(results@[(k - base) / 4])[k % 4]
                } else {
                    before[k]
                }) by {
                    if at <= k < at + 4 {
                        assert((k - base) / 4 == i);
                        assert(k % 4 == k - at);
                        assert(px@[k - at] == pixel_of(results@[i as int])[k - at]);
                    }
                }
            }
            i = i + 1;
        }
        assert(canvas_samples(self.canvas) =~= with_row(before, width as nat, row as nat, results@));
    }

    /// Whether every row is done.
    pub fn is_finished(&self) -> (done: bool)
        ensures
            done == (self@.rows_left == 0),
    {
        self.rows_left == 0
    }

    /// The image as it stands.
    pub fn into_canvas(self) -> (canvas: Canvas)
        requires
            self.wf(),
        ensures
            canvas_width(canvas) == self@.width,
            canvas_height(canvas) == self@.height,
            canvas_samples(canvas) == self@.pixels,
    {
        self.canvas
    }
}

/// In row `row` of an image `width` pixels wide, the channel at `k` belongs
/// to the pixel in column `(k - base) / 4`, where `base` is the place of the
/// row's first channel.
proof fn lemma_channel_place(k: int, width: int, row: int)
    requires
        width > 0,
        row >= 0,
        4 * (row * width) <= k < 4 * (row * width) + 4 * width,
    ensures
        (k / 4) / width == row,
        (k / 4) % width == (k - 4 * (row * width)) / 4,
        0 <= (k - 4 * (row * width)) / 4 < width,
{
    let j = (k - 4 * (row * width)) / 4;
    assert(k / 4 == row * width + j);
    lemma_fundamental_div_mod_converse(k / 4, width, row, j);
}

/// Drawing the samples of a row's coordinates into the row makes the row
/// what the finished image has there, and leaves the rows below as they were.
proof fn lemma_row_rendered(before: Seq<u8>, after: Seq<u8>, width: u32, height: u32, row: u32, results: Seq<Vector4>)
    requires
        width > 0,
        row < height,
        before.len() == 4 * width * height,
        results.len() == width,
        after == with_row(before, width as nat, row as nat, results),
        forall|j: int| 0 <= j < width ==> pixel_of(#[trigger] results[j]) == rendered_pixel(width, height, j as u32, row),
        forall|k: int| 4 * ((row + 1) * width) <= k < 4 * width * height ==> before[k] == rendering(width, height)[k],
    ensures
        after.len() == 4 * width * height,
        forall|k: int| 4 * (row * width) <= k < 4 * width * height ==> after[k] == rendering(width, height)[k],
{
    assert(4 * (row * width) + 4 * width == 4 * ((row + 1) * width)) by (nonlinear_arith);
    assert(4 * ((row + 1) * width) <= 4 * width * height) by (nonlinear_arith)
        requires
            row + 1 <= height,
    ;
    assert forall|k: int| 4 * (row * width) <= k < 4 * width * height implies after[k] == rendering(
        width,
        height,
    )[k] by {
        if k < 4 * (row * width) + 4 * width {
            lemma_channel_place(k, width as int, row as int);
            let j = (k - 4 * (row * width)) / 4;
            assert(pixel_of(results[j]) == rendered_pixel(width, height, j as u32, row));
        }
    }
}

/// Renders the whole image on the host: every row is dispatched to the
/// host's evaluator and drawn, from the last row up. Each pixel of the
/// result is the sample of its coordinate; the image of one pixel is the
/// black of the bounded points.
pub fn render_on_host(width: u32, height: u32) -> (r: Result<Canvas, RenderError>)
    ensures
        match r {
            Ok(canvas) => {
                &&& checked_size(width, height) is Ok
                &&& canvas_width(canvas) == width
                &&& canvas_height(canvas) == height
                &&& canvas_samples(canvas) == rendering(width, height)
            },
            Err(e) => checked_size(width, height) == Err::<(), RenderError>(e),
        },
        width == 1 && height == 1 ==> (r matches Ok(canvas) && canvas_samples(canvas) == seq![
            0u8,
            0u8,
            0u8,
            250u8,
        ]),
{
    proof {
        if width == 1 && height == 1 {
            lemma_single_pixel_image();
        }
    }
    let mut renderer = match Renderer::new(width, height) {
        Ok(renderer) => renderer,
        Err(e) => {
            return Err(e);
        },
    };
    assert(4 * (height * width) == 4 * width * height) by (nonlinear_arith);
    while !renderer.is_finished()
        invariant
            renderer.wf(),
            renderer@.width == width,
            renderer@.height == height,
            width > 0,
            renderer@.rows_left <= height,
            renderer@.pixels.len() == 4 * width * height,
            forall|k: int|
                4 * (renderer@.rows_left * width) <= k < 4 * width * height ==> renderer@.pixels[k]
                    == rendering(width, height)[k],
        decreases renderer@.rows_left,
    {
        let ghost before = renderer@;
        match renderer.next_batch() {
            Some(batch) => {
                let ghost row = (before.rows_left - 1) as u32;
                let outcome = dispatch_on_host(&batch);
                renderer.accept(&outcome);
                proof {
                    let results = samples(batch@);
                    assert(batch@.len() == width);
                    assert(outcome matches Ok(v) && v@ == results);
                    assert forall|j: int| 0 <= j < width implies pixel_of(#[trigger] results[j])
                        == rendered_pixel(width, height, j as u32, row) by {
                        reveal(rendered_pixel);
                        assert(batch@[j] == coordinate(width, height, j as u32, row));
                    }
                    assert(renderer@.pixels == with_row(before.pixels, width as nat, row as nat, results));
                    lemma_row_rendered(before.pixels, renderer@.pixels, width, height, row, results);
                }
            },
            None => {},
        }
    }
    proof {
        assert(4 * (0 * width) == 0) by (nonlinear_arith);
        assert(renderer@.pixels =~= rendering(width, height));
    }
    Ok(renderer.into_canvas())
}

/// The pixel of every sample that the evaluator gives: a point that escaped
/// at iteration `i` has five times `i`, wrapped to a byte, in red and in
/// green; a bounded point has zero there; blue is zero and alpha 250.
pub proof fn lemma_shade_pixels(t: Option<nat>)
    requires
        t matches Some(i) ==> i < 256,
    ensures
        pixel_of(shade(t)) == (match t {
            Some(i) => seq![((5 * i) % 256) as u8, ((5 * i) % 256) as u8, 0u8, 250u8],
            None => seq![0u8, 0u8, 0u8, 250u8],
        }),
{
    let zero = Binary32 { bits: 0 };
    let alpha = Binary32 { bits: 0x437a_0000 };
    assert(truncated_byte(zero) == 0) by {
        lemma_truncated_integer(0);
        assert(pack(false, integer_pattern(0)) == zero);
    }
    assert(truncated_byte(alpha) == 250) by {
        lemma_truncated_integer(250);
        lemma_integer_on_grid(250);
        vstd::arithmetic::power2::lemma2_to64();
        assert(crate::binary32::convert::digits(250) == 8) by {
            reveal_with_fuel(crate::binary32::convert::digits, 10);
        }
        assert(250 * vstd::arithmetic::power2::pow2(16) == 0xfa_0000);
        assert(integer_pattern(250) == 0x437a_0000);
        assert(pack(false, integer_pattern(250)) == alpha);
    }
    match t {
        Some(i) => {
            lemma_brightness(i);
            lemma_truncated_integer(5 * i);
            let g = shade(t).x;
            assert(g == pack(false, integer_pattern(5 * i)));
            assert(pixel_of(shade(t)) =~= seq![((5 * i) % 256) as u8, ((5 * i) % 256) as u8, 0u8, 250u8]);
        },
        None => {
            assert(pixel_of(shade(t)) =~= seq![0u8, 0u8, 0u8, 250u8]);
        },
    }
}

/// What the finished image holds at a pixel: for a coordinate that escapes
/// at iteration `i`, five times `i` wrapped to a byte in red and in green;
/// for a bounded one, zero; blue zero and alpha 250 for both.
pub proof fn lemma_rendered_pixel(width: u32, height: u32, column: u32, row: u32)
    ensures
        rendered_pixel(width, height, column, row) == (match escape_iteration(
            coordinate(width, height, column, row),
        ) {
            Some(i) => seq![((5 * i) % 256) as u8, ((5 * i) % 256) as u8, 0u8, 250u8],
            None => seq![0u8, 0u8, 0u8, 250u8],
        }),
{
    reveal(rendered_pixel);
    let t = escape_iteration(coordinate(width, height, column, row));
    lemma_escape_below_limit(coordinate(width, height, column, row), 0);
    lemma_shade_pixels(t);
}

/// The image of one pixel is the black of the bounded points.
pub proof fn lemma_single_pixel_image()
    ensures
        rendering(1, 1) == seq![0u8, 0u8, 0u8, 250u8],
{
    lemma_single_pixel_axis();
    let c = coordinate(1, 1, 0, 0);
    lemma_origin_is_bounded(c);
    lemma_rendered_pixel(1, 1, 0, 0);
    assert forall|k: int| 0 <= k < 4 implies rendering(1, 1)[k] == seq![0u8, 0u8, 0u8, 250u8][k] by {
        assert((k / 4) % 1 == 0 && (k / 4) / 1 == 0 && k % 4 == k);
    }
    assert(rendering(1, 1) =~= seq![0u8, 0u8, 0u8, 250u8]);
}

} // verus!
