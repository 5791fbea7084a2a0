//! The iteration buffer: writing counts into it and framing it as a PNG file.
use vstd::prelude::*;
use crate::laws::lemma_buffer_positions;
use crate::raster::{size_fits, RasterDimensions};

verus! {

/// Why an image buffer could not be encoded.
#[derive(Debug, Clone, Copy, PartialEq, Eq, Structural)]
pub enum ImageError {
    /// The buffer does not hold exactly one byte per pixel.
    SizeMismatch,
    /// The PNG encoder reported an error.
    Encoding,
}

/// Stores the count of pixel `(x, y)`; every other pixel keeps its value.
pub fn store_count(image: &mut Vec<u8>, dims: &RasterDimensions, x: u32, y: u32, count: u8)
    requires
        dims.wf(),
        old(image)@.len() == dims.spec_pixel_count(),
        x < dims.spec_width(),
        y < dims.spec_height(),
    ensures
        final(image)@ == old(image)@.update(dims.spec_index(x as nat, y as nat) as int, count),
{
    let i = dims.pixel_index(x, y);
    image.set(i, count);
}

/// Stores the counts of lane group `group` of row `y`: lane `j` is the pixel
/// `(group * lanes + j, y)`. Every other pixel keeps its value.
pub fn scatter_group(
    image: &mut Vec<u8>,
    dims: &RasterDimensions,
    y: u32,
    group: u32,
    counts: &Vec<u8>,
)
    requires
        dims.wf(),
        old(image)@.len() == dims.spec_pixel_count(),
        y < dims.spec_height(),
        group < dims.spec_width() / dims.spec_lanes(),
        counts@.len() == dims.spec_lanes(),
    ensures
        final(image)@.len() == old(image)@.len(),
        forall|i: int|
            0 <= i < final(image)@.len() ==> #[trigger] final(image)@[i] == if dims.spec_index(
                group as nat * dims.spec_lanes(),
                y as nat,
            ) <= i < dims.spec_index(group as nat * dims.spec_lanes(), y as nat)
                + dims.spec_lanes() {
                counts@[i - dims.spec_index(group as nat * dims.spec_lanes(), y as nat)]
            } else {
                old(image)@[i]
            },
{
    let lanes = dims.lanes();
    let per_row = dims.groups_per_row();
    let width = dims.width();
    proof {
        assert(group as nat * lanes as nat + lanes as nat <= per_row as nat * lanes as nat)
            by (nonlinear_arith)
            requires
                group < per_row,
        ;
        assert(per_row as nat * lanes as nat == dims.spec_width());
    }
    let base = group * lanes;
    let ghost start = dims.spec_index(base as nat, y as nat);
    let ghost before = image@;
    let mut j: u32 = 0;
    while j < lanes
        invariant
            dims.wf(),
            lanes == dims.spec_lanes(),
            width == dims.spec_width(),
            base as nat + lanes <= dims.spec_width(),
            y < dims.spec_height(),
            counts@.len() == lanes,
            start == dims.spec_index(base as nat, y as nat),
            image@.len() == before.len(),
            before.len() == dims.spec_pixel_count(),
            j <= lanes,
            forall|i: int|
                0 <= i < image@.len() ==> #[trigger] image@[i] == if start <= i < start + j {
                    counts@[i - start]
                } else {
                    before[i]
                },
        decreases lanes - j,
    {
        let i = dims.pixel_index(base + j, y);
        image.set(i, counts[j as usize]);
        j = j + 1;
    }
}

/// Renders every pixel: visits the rows top to bottom and each row left to
/// right, storing `count_at(x, y)` at pixel `(x, y)`. Every pixel of the
/// buffer is overwritten, so nothing of its former contents remains.
pub fn fill_pixels<F: Fn(u32, u32) -> u8>(image: &mut Vec<u8>, dims: &RasterDimensions, count_at: F)
    requires
        dims.wf(),
        old(image)@.len() == dims.spec_pixel_count(),
        forall|x: u32, y: u32|
            x < dims.spec_width() && y < dims.spec_height() ==> #[trigger] count_at.requires(
                (x, y),
            ),
    ensures
        final(image)@.len() == old(image)@.len(),
        forall|x: u32, y: u32|
            x < dims.spec_width() && y < dims.spec_height() ==> count_at.ensures(
                (x, y),
                final(image)@[#[trigger] dims.spec_index(x as nat, y as nat) as int],
            ),
{
    let w = dims.width();
    let h = dims.height();
    let mut y: u32 = 0;
    while y < h
        invariant
            dims.wf(),
            w == dims.spec_width(),
            h == dims.spec_height(),
            y <= h,
            image@.len() == dims.spec_pixel_count(),
            forall|x: u32, y: u32|
                x < dims.spec_width() && y < dims.spec_height() ==> #[trigger] count_at.requires(
                    (x, y),
                ),
            forall|xx: u32, yy: u32|
                xx < w && yy < y ==> count_at.ensures(
                    (xx, yy),
                    image@[#[trigger] dims.spec_index(xx as nat, yy as nat) as int],
                ),
        decreases h - y,
    {
        let mut x: u32 = 0;
        while x < w
            invariant
                dims.wf(),
                w == dims.spec_width(),
                h == dims.spec_height(),
                y < h,
                x <= w,
                image@.len() == dims.spec_pixel_count(),
                forall|x: u32, y: u32|
                    x < dims.spec_width() && y < dims.spec_height() ==> #[trigger] count_at.requires(
                        (x, y),
                    ),
                forall|xx: u32, yy: u32|
                    (xx < w && yy < y) || (xx < x && yy == y) ==> count_at.ensures(
                        (xx, yy),
                        image@[#[trigger] dims.spec_index(xx as nat, yy as nat) as int],
                    ),
            decreases w - x,
        {
            let v = count_at(x, y);
            let ghost before = image@;
            proof {
                lemma_buffer_positions(*dims, x as nat, y as nat, x as nat, y as nat);
            }
            store_count(image, dims, x, y, v);
            assert forall|xx: u32, yy: u32|
                (xx < w && yy < y) || (xx < x + 1 && yy == y) implies count_at.ensures(
                (xx, yy),
                image@[#[trigger] dims.spec_index(xx as nat, yy as nat) as int],
            ) by {
                lemma_buffer_positions(*dims, xx as nat, yy as nat, x as nat, y as nat);
                if xx != x || yy != y {
                    assert(image@[dims.spec_index(xx as nat, yy as nat) as int]
                        == before[dims.spec_index(xx as nat, yy as nat) as int]);
                }
            }
            x = x + 1;
        }
        y = y + 1;
    }
}

/// Renders every lane group: visits the rows top to bottom and each row's
/// groups left to right, scattering `counts_at(y, group)` over the group's
/// pixels, lane `j` to pixel `(group * lanes + j, y)`. The groups tile every
/// row, so every pixel of the buffer is overwritten by exactly one lane.
/// `counts_at` must give one count per lane and the same counts for the same
/// group.
pub fn fill_groups<F: Fn(u32, u32) -> Vec<u8>>(
    image: &mut Vec<u8>,
    dims: &RasterDimensions,
    counts_at: F,
)
    requires
        dims.wf(),
        old(image)@.len() == dims.spec_pixel_count(),
        forall|y: u32, g: u32|
            y < dims.spec_height() && g < dims.spec_width() / dims.spec_lanes()
                ==> #[trigger] counts_at.requires((y, g)),
        forall|y: u32, g: u32, r: Vec<u8>|
            y < dims.spec_height() && g < dims.spec_width() / dims.spec_lanes()
                && #[trigger] counts_at.ensures((y, g), r) ==> r@.len() == dims.spec_lanes(),
        forall|y: u32, g: u32, r1: Vec<u8>, r2: Vec<u8>|
            #![trigger counts_at.ensures((y, g), r1), counts_at.ensures((y, g), r2)]
            y < dims.spec_height() && g < dims.spec_width() / dims.spec_lanes()
                && counts_at.ensures((y, g), r1) && counts_at.ensures((y, g), r2) ==> r1@ == r2@,
    ensures
        final(image)@.len() == old(image)@.len(),
        forall|y: u32, g: u32|
            y < dims.spec_height() && g < dims.spec_width() / dims.spec_lanes()
                && #[trigger] counts_at.requires((y, g)) ==> exists|r: Vec<u8>|
                counts_at.ensures((y, g), r),
        forall|x: u32, y: u32, r: Vec<u8>|
            #![trigger counts_at.ensures((y, (x as nat / dims.spec_lanes()) as u32), r), dims.spec_index(x as nat, y as nat)]
            x < dims.spec_width() && y < dims.spec_height() && counts_at.ensures(
                (y, (x as nat / dims.spec_lanes()) as u32),
                r,
            ) ==> r@[(x as nat % dims.spec_lanes()) as int] == final(image)@[dims.spec_index(
                x as nat,
                y as nat,
            ) as int],
{
    let w = dims.width();
    let h = dims.height();
    let lanes = dims.lanes();
    let per_row = dims.groups_per_row();
    let mut y: u32 = 0;
    while y < h
        invariant
            dims.wf(),
            w == dims.spec_width(),
            h == dims.spec_height(),
            lanes == dims.spec_lanes(),
            per_row == w / lanes,
            per_row * lanes == w,
            y <= h,
            image@.len() == dims.spec_pixel_count(),
            forall|y: u32, g: u32|
                y < dims.spec_height() && g < dims.spec_width() / dims.spec_lanes()
                    ==> #[trigger] counts_at.requires((y, g)),
            forall|y: u32, g: u32, r: Vec<u8>|
                y < dims.spec_height() && g < dims.spec_width() / dims.spec_lanes()
                    && #[trigger] counts_at.ensures((y, g), r) ==> r@.len() == dims.spec_lanes(),
            forall|y: u32, g: u32, r1: Vec<u8>, r2: Vec<u8>|
                #![trigger counts_at.ensures((y, g), r1), counts_at.ensures((y, g), r2)]
                y < dims.spec_height() && g < dims.spec_width() / dims.spec_lanes()
                    && counts_at.ensures((y, g), r1) && counts_at.ensures((y, g), r2) ==> r1@ == r2@,
            forall|yy: u32, gg: u32|
                yy < y && gg < per_row && #[trigger] counts_at.requires((yy, gg)) ==> exists|r: Vec<u8>|
                    counts_at.ensures((yy, gg), r),
            forall|xx: u32, yy: u32, r: Vec<u8>|
                #![trigger counts_at.ensures((yy, (xx / lanes) as u32), r), dims.spec_index(xx as nat, yy as nat)]
                xx < w && yy < y && counts_at.ensures((yy, (xx / lanes) as u32), r)
                    ==> r@[(xx % lanes) as int] == image@[dims.spec_index(xx as nat, yy as nat) as int],
        decreases h - y,
    {
        let mut g: u32 = 0;
        while g < per_row
            invariant
                dims.wf(),
                w == dims.spec_width(),
                h == dims.spec_height(),
                lanes == dims.spec_lanes(),
                per_row == w / lanes,
                per_row * lanes == w,
                y < h,
                g <= per_row,
                image@.len() == dims.spec_pixel_count(),
                forall|y: u32, g: u32|
                    y < dims.spec_height() && g < dims.spec_width() / dims.spec_lanes()
                        ==> #[trigger] counts_at.requires((y, g)),
                forall|y: u32, g: u32, r: Vec<u8>|
                    y < dims.spec_height() && g < dims.spec_width() / dims.spec_lanes()
                        && #[trigger] counts_at.ensures((y, g), r) ==> r@.len()
                        == dims.spec_lanes(),
                forall|y: u32, g: u32, r1: Vec<u8>, r2: Vec<u8>|
                    #![trigger counts_at.ensures((y, g), r1), counts_at.ensures((y, g), r2)]
                    y < dims.spec_height() && g < dims.spec_width() / dims.spec_lanes()
                        && counts_at.ensures((y, g), r1) && counts_at.ensures((y, g), r2) ==> r1@ == r2@,
                forall|yy: u32, gg: u32|
                    ((yy < y && gg < per_row) || (yy == y && gg < g)) && #[trigger] counts_at.requires(
                        (yy, gg),
                    ) ==> exists|r: Vec<u8>| counts_at.ensures((yy, gg), r),
                forall|xx: u32, yy: u32, r: Vec<u8>|
                    #![trigger counts_at.ensures((yy, (xx / lanes) as u32), r), dims.spec_index(xx as nat, yy as nat)]
                    ((xx < w && yy < y) || (xx < g * lanes && yy == y)) && counts_at.ensures(
                        (yy, (xx / lanes) as u32),
                        r,
                    ) ==> r@[(xx % lanes) as int] == image@[dims.spec_index(xx as nat, yy as nat) as int],
            decreases per_row - g,
        {
            let counts = counts_at(y, g);
            assert(counts_at.ensures((y, g), counts));
            let ghost before = image@;
            proof {
                assert(g as nat * lanes as nat + lanes as nat <= w as nat) by (nonlinear_arith)
                    requires
                        g < per_row,
                        per_row * lanes == w,
                ;
            }
            scatter_group(image, dims, y, g, &counts);
            let ghost start = dims.spec_index(g as nat * lanes as nat, y as nat);
            assert forall|xx: u32, yy: u32, r: Vec<u8>|
                ((xx < w && yy < y) || (xx < (g + 1) * lanes && yy == y)) && #[trigger] counts_at.ensures(
                    (yy, (xx / lanes) as u32),
                    r,
                ) implies r@[(xx % lanes) as int] == image@[#[trigger] dims.spec_index(
                xx as nat,
                yy as nat,
            ) as int] by {
                assert((g + 1) * lanes == g * lanes + lanes) by (nonlinear_arith);
                assert(xx < w);
                lemma_buffer_positions(*dims, xx as nat, yy as nat, 0, yy as nat);
                let i = dims.spec_index(xx as nat, yy as nat) as int;
                if yy == y && xx >= g * lanes {
                    crate::laws::lemma_lane_unique(
                        *dims,
                        g as nat,
                        (xx - g * lanes) as nat,
                        xx as nat,
                    );
                    assert(start <= i < start + lanes);
                    assert(r@ == counts@);
                    assert(image@[i] == counts@[(xx % lanes) as int]);
                } else {
                    if yy < y {
                        assert(i < start) by (nonlinear_arith)
                            requires
                                i == yy * w + xx,
                                start == y * w + g * lanes,
                                yy < y,
                                xx < w,
                        ;
                    } else {
                        assert(i < start);
                    }
                    assert(image@[i] == before[i]);
                }
            }
            g = g + 1;
        }
        y = y + 1;
    }
}

#[verifier::external_type_specification]
#[verifier::external_body]
pub struct ExEncodingError(png::EncodingError);

/// The PNG file that the `png` crate writes for an 8-bit grayscale image of
/// `width` by `height` pixels, rows top to bottom, with its default options.
pub uninterp spec fn gray8_png(pixels: Seq<u8>, width: u32, height: u32) -> Seq<u8>;

/// Relies on png's `Encoder::new`, `set_depth`, `set_color`, `write_header`,
/// `Writer::write_image_data` and `Writer::finish`, writing into memory. The
/// data holds one byte per pixel, and a row with its filter byte times the
/// height stays within `isize::MAX`, so png's row-size arithmetic cannot
/// overflow. The header is refused for a zero width or height; otherwise,
/// writing into memory, every step succeeds and the bytes are the encoded file.
#[verifier::external_body]
fn encode_gray8(pixels: &Vec<u8>, width: u32, height: u32) -> (r: Result<
    Vec<u8>,
    png::EncodingError,
>)
    requires
        pixels@.len() == width as nat * height as nat,
        size_fits(width as nat, height as nat),
    ensures
        !(width > 0 && height > 0) ==> r is Err,
        (width > 0 && height > 0) ==> r is Ok,
        r matches Ok(bytes) ==> bytes@ == gray8_png(pixels@, width, height),
{
    let mut out: Vec<u8> = Vec::new();
    let mut encoder = png::Encoder::new(&mut out, width, height);
    encoder.set_depth(png::BitDepth::Eight);
    encoder.set_color(png::ColorType::Grayscale);
    let mut writer = encoder.write_header()?;
    writer.write_image_data(pixels)?;
    writer.finish()?;
    Ok(out)
}

/// Frames the buffer as an 8-bit grayscale PNG file. A buffer whose length is
/// not the pixel count is refused before the encoder runs; any other buffer is
/// encoded.
pub fn encode_png(dims: &RasterDimensions, image: &Vec<u8>) -> (r: Result<Vec<u8>, ImageError>)
    requires
        dims.wf(),
    ensures
        (r == Err::<Vec<u8>, ImageError>(ImageError::SizeMismatch)) <==> image@.len()
            != dims.spec_pixel_count(),
        image@.len() == dims.spec_pixel_count() ==> r is Ok,
        r matches Ok(bytes) ==> bytes@ == gray8_png(
            image@,
            dims.spec_width() as u32,
            dims.spec_height() as u32,
        ),
{
    if image.len() != dims.pixel_count() {
        return Err(ImageError::SizeMismatch);
    }
    match encode_gray8(image, dims.width(), dims.height()) {
        Ok(bytes) => Ok(bytes),
        Err(_) => Err(ImageError::Encoding),
    }
}

} // verus!
