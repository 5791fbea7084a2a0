//! Escape-time rendering of the Mandelbrot set into an 8-bit grayscale raster.
//!
//! The library holds the exact, integer side of the renderer: the validated
//! raster layout, the row-major pixel indexing, the scalar escape counter, the
//! predicated lane-group counter that the data-parallel kernel runs, the scatter
//! of counts into the image buffer, and the PNG framing of that buffer. The
//! floating-point orbit arithmetic is left to the caller, which reports for each
//! step whether the orbit left the escape radius.
use vstd::prelude::*;

pub mod escape;
pub mod image;
pub mod lanes;
pub mod laws;
pub mod raster;

verus! {

} // verus!
