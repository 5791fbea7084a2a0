//! Raster layout: validated dimensions and row-major pixel indexing.
use vstd::prelude::*;

verus! {

/// A `width` by `height` buffer with one extra byte per row (the row tag of
/// an encoded image) fits in `isize::MAX` bytes, the most one allocation holds.
pub open spec fn size_fits(width: nat, height: nat) -> bool {
    (width + 1) * height <= isize::MAX
}

/// Why a rendering configuration was refused.
#[derive(Debug, Clone, Copy, PartialEq, Eq, Structural)]
pub enum ConfigError {
    /// The raster has no columns.
    ZeroWidth,
    /// The raster has no rows.
    ZeroHeight,
    /// The lane width of the data-parallel kernel is zero.
    ZeroLaneWidth,
    /// The width is not a multiple of the lane width, so lane groups would not tile a row.
    WidthNotLaneMultiple,
    /// The buffer, with one more byte per row, would not fit in `isize::MAX` bytes.
    TooLarge,
    /// A lower bound of the viewport does not lie strictly below its upper bound.
    DegenerateViewport,
}

/// Width and height of the raster in pixels, and the lane width that the
/// data-parallel kernel processes at a time.
#[derive(Debug, Clone, Copy, PartialEq, Eq, Structural)]
pub struct RasterDimensions {
    width: u32,
    height: u32,
    lanes: u32,
}

impl RasterDimensions {
    pub closed spec fn spec_width(&self) -> nat {
        self.width as nat
    }

    pub closed spec fn spec_height(&self) -> nat {
        self.height as nat
    }

    pub closed spec fn spec_lanes(&self) -> nat {
        self.lanes as nat
    }

    /// Number of pixels, `width * height`.
    pub open spec fn spec_pixel_count(&self) -> nat {
        self.spec_width() * self.spec_height()
    }

    /// Row-major position of pixel `(x, y)`.
    pub open spec fn spec_index(&self, x: nat, y: nat) -> nat {
        y * self.spec_width() + x
    }

    /// Both sides positive, lane groups tile each row, and the buffer fits in memory.
    pub open spec fn wf(&self) -> bool {
        &&& self.spec_width() > 0
        &&& self.spec_height() > 0
        &&& self.spec_lanes() > 0
        &&& self.spec_width() % self.spec_lanes() == 0
        &&& self.spec_pixel_count() <= usize::MAX
        &&& size_fits(self.spec_width(), self.spec_height())
    }

    /// Validates a configuration before any computation, reporting the first
    /// problem in this order: width, height, lane width, tiling, size, viewport.
    /// `viewport_ordered` tells whether each lower bound of the viewport lies
    /// strictly below its upper bound.
    pub fn validate(width: u32, height: u32, lanes: u32, viewport_ordered: bool) -> (r: Result<
        RasterDimensions,
        ConfigError,
    >)
        ensures
            width == 0 <==> r == Err::<RasterDimensions, ConfigError>(ConfigError::ZeroWidth),
            (width > 0 && height == 0) <==> r == Err::<RasterDimensions, ConfigError>(
                ConfigError::ZeroHeight,
            ),
            (width > 0 && height > 0 && lanes == 0) <==> r == Err::<RasterDimensions, ConfigError>(
                ConfigError::ZeroLaneWidth,
            ),
            (width > 0 && height > 0 && lanes > 0 && width % lanes != 0) <==> r == Err::<
                RasterDimensions,
                ConfigError,
            >(ConfigError::WidthNotLaneMultiple),
            (width > 0 && height > 0 && lanes > 0 && width % lanes == 0 && !size_fits(
                width as nat,
                height as nat,
            )) <==> r == Err::<RasterDimensions, ConfigError>(
                ConfigError::TooLarge,
            ),
            (width > 0 && height > 0 && lanes > 0 && width % lanes == 0 && size_fits(
                width as nat,
                height as nat,
            ) && !viewport_ordered) <==> r == Err::<
                RasterDimensions,
                ConfigError,
            >(ConfigError::DegenerateViewport),
            r is Ok <==> (width > 0 && height > 0 && lanes > 0 && width % lanes == 0 && size_fits(
                width as nat,
                height as nat,
            ) && viewport_ordered),
            r matches Ok(d) ==> d.wf() && d.spec_width() == width && d.spec_height() == height
                && d.spec_lanes() == lanes,
    {
        if width == 0 {
            return Err(ConfigError::ZeroWidth);
        }
        if height == 0 {
            return Err(ConfigError::ZeroHeight);
        }
        if lanes == 0 {
            return Err(ConfigError::ZeroLaneWidth);
        }
        if width % lanes != 0 {
            return Err(ConfigError::WidthNotLaneMultiple);
        }
        let w = width as usize;
        let h = height as usize;
        assert(isize::MAX <= usize::MAX);
        let row = match w.checked_add(1) {
            None => {
                proof {
                    assert((w as nat + 1) * h as nat >= w as nat + 1) by (nonlinear_arith)
                        requires
                            h >= 1,
                    ;
                }
                return Err(ConfigError::TooLarge);
            },
            Some(row) => row,
        };
        match row.checked_mul(h) {
            None => {
                return Err(ConfigError::TooLarge);
            },
            Some(total) => {
                if total > isize::MAX as usize {
                    return Err(ConfigError::TooLarge);
                }
            },
        }
        proof {
            assert(w as nat * h as nat <= (w as nat + 1) * h as nat) by (nonlinear_arith);
        }
        if !viewport_ordered {
            return Err(ConfigError::DegenerateViewport);
        }
        Ok(RasterDimensions { width, height, lanes })
    }

    pub fn width(&self) -> (r: u32)
        ensures
            r == self.spec_width(),
    {
        self.width
    }

    pub fn height(&self) -> (r: u32)
        ensures
            r == self.spec_height(),
    {
        self.height
    }

    pub fn lanes(&self) -> (r: u32)
        ensures
            r == self.spec_lanes(),
    {
        self.lanes
    }

    /// Length of the image buffer: one byte per pixel.
    pub fn pixel_count(&self) -> (r: usize)
        requires
            self.wf(),
        ensures
            r == self.spec_pixel_count(),
    {
        self.width as usize * self.height as usize
    }

    /// Position of pixel `(x, y)` in the row-major buffer; it always lies inside the buffer.
    pub fn pixel_index(&self, x: u32, y: u32) -> (r: usize)
        requires
            self.wf(),
            x < self.spec_width(),
            y < self.spec_height(),
        ensures
            r == self.spec_index(x as nat, y as nat),
            r < self.spec_pixel_count(),
    {
        proof {
            lemma_index_in_range(self.spec_width(), self.spec_height(), x as nat, y as nat);
        }
        y as usize * self.width as usize + x as usize
    }

    /// A zeroed image buffer with one byte per pixel.
    pub fn new_buffer(&self) -> (r: Vec<u8>)
        requires
            self.wf(),
        ensures
            r@.len() == self.spec_pixel_count(),
            forall|i: int| 0 <= i < r@.len() ==> r@[i] == 0u8,
    {
        let n = self.pixel_count();
        let mut v: Vec<u8> = Vec::with_capacity(n);
        while v.len() < n
            invariant
                v@.len() <= n,
                forall|i: int| 0 <= i < v@.len() ==> v@[i] == 0u8,
            decreases n - v@.len(),
        {
            v.push(0u8);
        }
        v
    }

    /// Number of lane groups in one row.
    pub fn groups_per_row(&self) -> (r: u32)
        requires
            self.wf(),
        ensures
            r == self.spec_width() / self.spec_lanes(),
            r * self.spec_lanes() == self.spec_width(),
    {
        proof {
            vstd::arithmetic::div_mod::lemma_fundamental_div_mod(
                self.spec_width() as int,
                self.spec_lanes() as int,
            );
        }
        self.width / self.lanes
    }
}

/// Each side and the lane width fit in `u32`.
pub proof fn lemma_dims_bounds(dims: RasterDimensions)
    ensures
        dims.spec_width() <= u32::MAX,
        dims.spec_height() <= u32::MAX,
        dims.spec_lanes() <= u32::MAX,
{
}

/// Row-major indices of a `width` by `height` raster lie below `width * height`.
pub proof fn lemma_index_in_range(width: nat, height: nat, x: nat, y: nat)
    requires
        x < width,
        y < height,
    ensures
        y * width + x < width * height,
{
    assert(y * width + x < (y + 1) * width) by (nonlinear_arith)
        requires
            x < width,
    ;
    assert((y + 1) * width <= height * width) by (nonlinear_arith)
        requires
            y < height,
    ;
    assert(height * width == width * height) by (nonlinear_arith);
}

} // verus!
