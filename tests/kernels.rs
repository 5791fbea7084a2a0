use mandelbrot_lanes::escape::{EscapeCounter, MAX_ITER, STEP_LIMIT};
use mandelbrot_lanes::image::{fill_groups, fill_pixels};
use mandelbrot_lanes::lanes::LaneGroup;
use mandelbrot_lanes::raster::RasterDimensions;

struct Area {
    cmin_r: f32,
    cmax_r: f32,
    cmin_i: f32,
    cmax_i: f32,
}

const AREA: Area = Area { cmin_r: -2.0, cmax_r: 1.0, cmin_i: -1.5, cmax_i: 1.5 };

fn scalar_count(c_r: f32, c_i: f32) -> u8 {
    let (mut z_r, mut z_i) = (c_r, c_i);
    let mut counter = EscapeCounter::new();
    while counter.is_running() {
        let next_r = z_r * z_r - z_i * z_i + c_r;
        let next_i = z_r * z_i + z_r * z_i + c_i;
        z_r = next_r;
        z_i = next_i;
        counter.observe(z_r * z_r + z_i * z_i > 4.0);
    }
    counter.count()
}

fn group_counts(c_r: &[f32], c_i: &[f32]) -> Vec<u8> {
    let mut z_r = c_r.to_vec();
    let mut z_i = c_i.to_vec();
    let mut group = LaneGroup::new(c_r.len());
    while group.is_running() {
        let mask = group.active_mask();
        let mut escaped = Vec::new();
        for j in 0..c_r.len() {
            let next_r = z_r[j] * z_r[j] - z_i[j] * z_i[j] + c_r[j];
            let next_i = z_r[j] * z_i[j] + z_r[j] * z_i[j] + c_i[j];
            if mask[j] {
                z_r[j] = next_r;
                z_i[j] = next_i;
            }
            escaped.push(z_r[j] * z_r[j] + z_i[j] * z_i[j] > 4.0);
        }
        group.observe(&escaped);
    }
    group.counts().clone()
}

fn render_scalar(area: &Area, dims: &RasterDimensions, image: &mut Vec<u8>) {
    let (w, h) = (dims.width(), dims.height());
    let scale_x = (area.cmax_r - area.cmin_r) / (w as f32);
    let scale_y = (area.cmax_i - area.cmin_i) / (h as f32);
    fill_pixels(image, dims, |x, y| {
        scalar_count(area.cmin_r + x as f32 * scale_x, area.cmax_i - y as f32 * scale_y)
    });
}

fn render_lanes(area: &Area, dims: &RasterDimensions, image: &mut Vec<u8>) {
    let (w, h, lanes) = (dims.width(), dims.height(), dims.lanes());
    let scale_x = (area.cmax_r - area.cmin_r) / (w as f32);
    let scale_y = (area.cmax_i - area.cmin_i) / (h as f32);
    fill_groups(image, dims, |y, group| {
        let base = group * lanes;
        let c_r: Vec<f32> = (0..lanes).map(|j| area.cmin_r + (base + j) as f32 * scale_x).collect();
        let c_i: Vec<f32> = (0..lanes).map(|_| area.cmax_i - y as f32 * scale_y).collect();
        group_counts(&c_r, &c_i)
    });
}

fn dims(w: u32, h: u32, lanes: u32) -> RasterDimensions {
    RasterDimensions::validate(w, h, lanes, true).unwrap()
}

#[test]
fn scalar_and_lane_kernels_agree_on_small_raster() {
    let d = dims(16, 16, 8);
    let mut a = d.new_buffer();
    let mut b = vec![7u8; 256];
    render_scalar(&AREA, &d, &mut a);
    render_lanes(&AREA, &d, &mut b);
    assert_eq!(a, b);
    assert!(a.iter().any(|&v| v == 255));
    assert!(a.iter().any(|&v| v < 5));
}

#[test]
fn kernels_agree_with_sixteen_lanes_on_wide_raster() {
    let d = dims(64, 24, 16);
    let mut a = d.new_buffer();
    let mut b = d.new_buffer();
    render_scalar(&AREA, &d, &mut a);
    render_lanes(&AREA, &d, &mut b);
    assert_eq!(a, b);
}

#[test]
fn repeated_renders_are_identical() {
    let d = dims(16, 8, 8);
    let mut first = d.new_buffer();
    let mut second = vec![200u8; 128];
    render_scalar(&AREA, &d, &mut first);
    render_scalar(&AREA, &d, &mut second);
    assert_eq!(first, second);
    let mut third = vec![1u8; 128];
    let mut fourth = vec![9u8; 128];
    render_lanes(&AREA, &d, &mut third);
    render_lanes(&AREA, &d, &mut fourth);
    assert_eq!(third, fourth);
    assert_eq!(first, third);
}

#[test]
fn origin_never_escapes() {
    assert_eq!(scalar_count(0.0, 0.0), 255);
    assert_eq!(group_counts(&[0.0; 8], &[0.0; 8]), vec![255u8; 8]);
    assert_eq!(STEP_LIMIT, MAX_ITER - 1);
}

#[test]
fn point_two_escapes_on_first_step() {
    // The vector kernel here counts as the scalar one does: zero for an orbit
    // whose first iterate escapes.
    assert_eq!(scalar_count(2.0, 0.0), 0);
    let mut c_r = vec![0.0f32; 8];
    c_r[3] = 2.0;
    let counts = group_counts(&c_r, &[0.0; 8]);
    assert_eq!(counts[3], 0);
    assert_eq!(counts[0], 255);
}

#[test]
fn known_counts() {
    // c = -2: the orbit -2, 2, 2, ... stays on the escape circle and never leaves it.
    assert_eq!(scalar_count(-2.0, 0.0), 255);
    // c = 1: the first iterate 2 stays inside (|z|^2 = 4), the second, 5, escapes.
    assert_eq!(scalar_count(1.0, 0.0), 1);
    // c = 0.5: iterates 0.75, 1.0625, 1.62890625, 3.1533... escapes at the fourth.
    assert_eq!(scalar_count(0.5, 0.0), 3);
    assert_eq!(group_counts(&[1.0, 0.5, -2.0, 2.0], &[0.0; 4]), vec![1, 3, 255, 0]);
}

#[test]
fn counter_steps_one_at_a_time() {
    let mut c = EscapeCounter::new();
    assert!(c.is_running());
    assert_eq!(c.count(), 0);
    c.observe(false);
    c.observe(false);
    assert_eq!(c.count(), 2);
    assert!(c.is_running());
    c.observe(true);
    assert!(!c.is_running());
    c.observe(false);
    assert_eq!(c.count(), 2);
}

#[test]
fn counter_stops_at_step_limit() {
    let mut c = EscapeCounter::new();
    let mut steps = 0;
    while c.is_running() {
        c.observe(false);
        steps += 1;
    }
    assert_eq!(steps, 255);
    assert_eq!(c.count(), 255);
}

#[test]
fn lane_group_masks_finished_lanes() {
    let mut g = LaneGroup::new(3);
    assert_eq!(g.lanes(), 3);
    assert_eq!(g.active_mask(), vec![true, true, true]);
    g.observe(&vec![false, true, false]);
    assert_eq!(g.active_mask(), vec![true, false, true]);
    assert_eq!(g.counts(), &vec![1, 0, 1]);
    // A finished lane ignores its flag, whatever it is.
    g.observe(&vec![true, false, false]);
    assert_eq!(g.active_mask(), vec![false, false, true]);
    assert_eq!(g.counts(), &vec![1, 0, 2]);
    assert!(g.is_running());
    g.observe(&vec![false, false, true]);
    assert!(!g.is_running());
    assert_eq!(g.counts(), &vec![1, 0, 2]);
}

#[test]
fn lane_group_stops_at_step_limit() {
    let mut g = LaneGroup::new(2);
    let mut steps = 0;
    while g.is_running() {
        g.observe(&vec![false, false]);
        steps += 1;
    }
    assert_eq!(steps, 255);
    assert_eq!(g.counts(), &vec![255, 255]);
}

#[test]
fn first_step_escapes_count_zero_in_an_eight_lane_row() {
    // c_r = -4, -3, ..., 3 along one row at c_i = 0.
    let area = Area { cmin_r: -4.0, cmax_r: 4.0, cmin_i: -1.0, cmax_i: 0.0 };
    let d = dims(8, 1, 8);
    let mut lanes = vec![9u8; 8];
    let mut scalar = vec![9u8; 8];
    render_lanes(&area, &d, &mut lanes);
    render_scalar(&area, &d, &mut scalar);
    assert_eq!(lanes, vec![0, 0, 255, 255, 255, 1, 0, 0]);
    assert_eq!(lanes, scalar);
}
