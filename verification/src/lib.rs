//! Escape-time rendering of the Mandelbrot set, bit for bit.
//!
//! The evaluator works in IEEE 754 binary32. Its arithmetic is carried out
//! here on bit patterns, with integers, and proved to round as the standard
//! says, so that what the host computes is fixed to the last bit and can be
//! held against what an accelerator returns.
//!
//! - [`binary32`]: the data and their arithmetic.
//! - [`vector`]: coordinates and samples.
//! - [`evaluator`]: the iteration and the colour of a sample.
//! - [`plane`]: which coordinate belongs to which pixel.
//! - [`wire`]: the bytes of a batch in a transfer buffer.
//! - [`dispatch`]: the sizes of a dispatch, its results, and the dispatch on
//!   the host.
//! - [`canvas`]: the image buffer.
//! - [`render`]: the image, row by row.

pub mod binary32;
pub mod canvas;
pub mod dispatch;
pub mod evaluator;
pub mod plane;
pub mod render;
pub mod vector;
pub mod wire;
