use mandelbrot_lanes::image::{encode_png, fill_groups, fill_pixels, scatter_group, store_count, ImageError};
use mandelbrot_lanes::raster::{ConfigError, RasterDimensions};

#[test]
fn validate_accepts_tiling_configuration() {
    let d = RasterDimensions::validate(16, 4, 8, true).unwrap();
    assert_eq!((d.width(), d.height(), d.lanes()), (16, 4, 8));
    assert_eq!(d.pixel_count(), 64);
    assert_eq!(d.groups_per_row(), 2);
}

#[test]
fn validate_reports_each_error() {
    assert_eq!(RasterDimensions::validate(0, 4, 8, true), Err(ConfigError::ZeroWidth));
    assert_eq!(RasterDimensions::validate(16, 0, 8, true), Err(ConfigError::ZeroHeight));
    assert_eq!(RasterDimensions::validate(16, 4, 0, true), Err(ConfigError::ZeroLaneWidth));
    assert_eq!(RasterDimensions::validate(20, 4, 8, true), Err(ConfigError::WidthNotLaneMultiple));
    assert_eq!(RasterDimensions::validate(16, 4, 8, false), Err(ConfigError::DegenerateViewport));
    // Width is checked before the viewport.
    assert_eq!(RasterDimensions::validate(0, 0, 0, false), Err(ConfigError::ZeroWidth));
}

#[test]
fn width_not_divisible_by_lanes_is_refused() {
    assert_eq!(RasterDimensions::validate(17, 16, 8, true), Err(ConfigError::WidthNotLaneMultiple));
    assert_eq!(RasterDimensions::validate(24, 16, 16, true), Err(ConfigError::WidthNotLaneMultiple));
    assert!(RasterDimensions::validate(24, 16, 8, true).is_ok());
    assert!(RasterDimensions::validate(7, 3, 1, true).is_ok());
}

#[test]
fn largest_raster_fits() {
    // The buffer plus one byte per row must stay within isize::MAX bytes.
    assert_eq!(RasterDimensions::validate(u32::MAX, u32::MAX, 1, true), Err(ConfigError::TooLarge));
    let d = RasterDimensions::validate(65536, 65536, 8, true);
    if usize::BITS >= 64 {
        assert_eq!(d.unwrap().pixel_count(), 1usize << 32);
    } else {
        assert_eq!(d, Err(ConfigError::TooLarge));
    }
    assert!(RasterDimensions::validate(u32::MAX, 1, 1, true).is_ok());
}

#[test]
fn pixel_index_is_row_major() {
    let d = RasterDimensions::validate(16, 4, 8, true).unwrap();
    assert_eq!(d.pixel_index(0, 0), 0);
    assert_eq!(d.pixel_index(5, 0), 5);
    assert_eq!(d.pixel_index(0, 1), 16);
    assert_eq!(d.pixel_index(15, 3), 63);
}

#[test]
fn buffer_length_is_width_times_height() {
    for &(w, h, l) in &[(16u32, 16u32, 8u32), (8, 3, 8), (32, 5, 16), (5, 7, 1)] {
        let d = RasterDimensions::validate(w, h, l, true).unwrap();
        let b = d.new_buffer();
        assert_eq!(b.len(), (w * h) as usize);
        assert!(b.iter().all(|&v| v == 0));
    }
}

#[test]
fn store_count_writes_one_pixel() {
    let d = RasterDimensions::validate(4, 2, 2, true).unwrap();
    let mut b = d.new_buffer();
    store_count(&mut b, &d, 3, 1, 42);
    assert_eq!(b, vec![0, 0, 0, 0, 0, 0, 0, 42]);
}

#[test]
fn scatter_group_places_lanes() {
    let d = RasterDimensions::validate(8, 2, 4, true).unwrap();
    let mut b = vec![9u8; 16];
    scatter_group(&mut b, &d, 1, 1, &vec![1, 2, 3, 4]);
    assert_eq!(b, vec![9, 9, 9, 9, 9, 9, 9, 9, 9, 9, 9, 9, 1, 2, 3, 4]);
    scatter_group(&mut b, &d, 0, 0, &vec![5, 6, 7, 8]);
    assert_eq!(&b[0..8], &[5, 6, 7, 8, 9, 9, 9, 9]);
    assert_eq!(b.len(), 16);
}

#[test]
fn encode_png_refuses_wrong_length() {
    let d = RasterDimensions::validate(4, 2, 2, true).unwrap();
    assert_eq!(encode_png(&d, &vec![0u8; 7]), Err(ImageError::SizeMismatch));
    assert_eq!(encode_png(&d, &vec![0u8; 9]), Err(ImageError::SizeMismatch));
}

#[test]
fn encode_png_round_trips_through_decoder() {
    let d = RasterDimensions::validate(4, 2, 2, true).unwrap();
    let pixels: Vec<u8> = vec![0, 10, 20, 30, 255, 128, 64, 1];
    let bytes = encode_png(&d, &pixels).unwrap();
    assert_eq!(&bytes[0..8], &[137, 80, 78, 71, 13, 10, 26, 10]);
    assert_ne!(bytes, pixels);
    let decoder = png::Decoder::new(std::io::Cursor::new(bytes));
    let mut reader = decoder.read_info().unwrap();
    let mut out = vec![0u8; reader.output_buffer_size()];
    let info = reader.next_frame(&mut out).unwrap();
    assert_eq!((info.width, info.height), (4, 2));
    assert_eq!(info.color_type, png::ColorType::Grayscale);
    assert_eq!(info.bit_depth, png::BitDepth::Eight);
    assert_eq!(&out[..info.buffer_size()], &pixels[..]);
}

#[test]
fn fill_pixels_overwrites_every_pixel() {
    let d = RasterDimensions::validate(4, 3, 2, true).unwrap();
    let mut b = vec![99u8; 12];
    fill_pixels(&mut b, &d, |x, y| (10 * y + x) as u8);
    assert_eq!(b, vec![0, 1, 2, 3, 10, 11, 12, 13, 20, 21, 22, 23]);
}

#[test]
fn fill_groups_places_each_lane_at_its_pixel() {
    let d = RasterDimensions::validate(4, 2, 2, true).unwrap();
    let mut b = vec![99u8; 8];
    fill_groups(&mut b, &d, |y, g| vec![(10 * y + 2 * g) as u8, (10 * y + 2 * g + 1) as u8]);
    assert_eq!(b, vec![0, 1, 2, 3, 10, 11, 12, 13]);
}

#[test]
fn encode_png_succeeds_on_matching_buffer() {
    let d = RasterDimensions::validate(1, 1, 1, true).unwrap();
    assert!(encode_png(&d, &vec![7u8]).is_ok());
    let d = RasterDimensions::validate(16, 16, 8, true).unwrap();
    assert!(encode_png(&d, &d.new_buffer()).is_ok());
}
