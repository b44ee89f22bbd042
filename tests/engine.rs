use mandel::escape::{evaluate_tests, IterationResult};
use mandel::gradient::{ColorStop, Gradient, GradientMode, Rgb8};
use mandel::parse::{parse_resolution, point_digits, range_digits};
use mandel::precision::{
    bounds_precision, ceil_log2_u32, resolution_precision, select_mode, zoom_precision,
    CoordinateMode, PlanError,
};
use mandel::raster::{assemble, pixel_grid, Pixel, PixelBuffer};
use mandel::render::{render, PixelResult};

fn escape_f64(cr: f64, ci: f64, take: u32) -> IterationResult {
    let mut st = IterationResult::start();
    let (mut zr, mut zi) = (0.0f64, 0.0f64);
    while st.is_running(take) {
        let nr = zr * zr - zi * zi + cr;
        let ni = 2.0 * zr * zi + ci;
        zr = nr;
        zi = ni;
        st = st.advance(zr * zr + zi * zi > 4.0, take);
    }
    st
}

fn stop(position: u32, red: u16, green: u16, blue: u16) -> ColorStop {
    ColorStop { position, red, green, blue }
}

fn rgb(red: u8, green: u8, blue: u8) -> Rgb8 {
    Rgb8 { red, green, blue }
}

#[test]
fn ceil_log2_values() {
    assert_eq!(ceil_log2_u32(0), 0);
    assert_eq!(ceil_log2_u32(1), 0);
    assert_eq!(ceil_log2_u32(2), 1);
    assert_eq!(ceil_log2_u32(3), 2);
    assert_eq!(ceil_log2_u32(1024), 10);
    assert_eq!(ceil_log2_u32(1025), 11);
    assert_eq!(ceil_log2_u32(u32::MAX), 32);
}

#[test]
fn resolution_precision_values() {
    assert_eq!(resolution_precision(2560, 1440), 13);
    assert_eq!(resolution_precision(4, 4), 3);
    assert_eq!(resolution_precision(1, 1), 1);
    assert_eq!(resolution_precision(u32::MAX, 1), 33);
}

#[test]
fn bounds_precision_adds_margin() {
    assert_eq!(bounds_precision(4, 4, 8, 11), Ok(3 + 11 + 4));
    assert_eq!(bounds_precision(2560, 1440, 24, 20), Ok(13 + 24 + 4));
}

#[test]
fn precision_overflow_is_reported() {
    assert_eq!(bounds_precision(1, 1, u32::MAX, 0), Err(PlanError::PrecisionOverflow));
    assert_eq!(zoom_precision(1, 1, u32::MAX - 3), Err(PlanError::PrecisionOverflow));
    assert_eq!(zoom_precision(1, 1, u32::MAX - 4), Ok(u32::MAX));
}

#[test]
fn zoom_precision_grows_with_zoom() {
    // ceil(z * log2(10)) for z = 0, 1, 2, 3
    let bits = [0u32, 4, 7, 10];
    let mut prev = zoom_precision(800, 600, bits[0]).unwrap();
    assert_eq!(prev, 11 + 0 + 3);
    for b in &bits[1..] {
        let p = zoom_precision(800, 600, *b).unwrap();
        assert!(p > prev);
        prev = p;
    }
}

#[test]
fn coordinate_modes() {
    assert_eq!(select_mode(true, true, false, false), Ok(CoordinateMode::Bounds));
    assert_eq!(select_mode(false, false, true, true), Ok(CoordinateMode::Zoom));
    assert_eq!(select_mode(false, false, false, false), Err(PlanError::MissingCoordinates));
    assert_eq!(select_mode(true, true, true, true), Err(PlanError::ConflictingCoordinates));
    assert_eq!(select_mode(true, false, false, true), Err(PlanError::ConflictingCoordinates));
    assert_eq!(select_mode(true, false, false, false), Err(PlanError::PartialCoordinates));
    assert_eq!(select_mode(false, false, false, true), Err(PlanError::PartialCoordinates));
}

#[test]
fn origin_never_escapes() {
    for take in [1u32, 2, 10, 500] {
        assert_eq!(escape_f64(0.0, 0.0, take), IterationResult { count: take, escaped: false });
    }
}

#[test]
fn five_escapes_at_first_iteration() {
    for take in [2u32, 3, 10, 500] {
        assert_eq!(escape_f64(5.0, 0.0, take), IterationResult { count: 1, escaped: true });
    }
    // under a cap of one no escape can be reported
    assert_eq!(escape_f64(5.0, 0.0, 1), IterationResult { count: 1, escaped: false });
}

#[test]
fn escape_result_stays_bounded() {
    let take = 20u32;
    for i in 0..40 {
        for j in 0..40 {
            let r = escape_f64(-2.0 + 0.1 * i as f64, -2.0 + 0.1 * j as f64, take);
            assert!(r.count <= take);
            if r.escaped {
                assert!(r.count >= 1 && r.count < take);
            } else {
                assert_eq!(r.count, take);
            }
        }
    }
}

#[test]
fn evaluate_tests_takes_first_escape() {
    let tests = vec![false, false, true, true];
    assert_eq!(evaluate_tests(&tests, 5), IterationResult { count: 3, escaped: true });
    assert_eq!(evaluate_tests(&tests, 3), IterationResult { count: 3, escaped: false });
    assert_eq!(evaluate_tests(&vec![], 1), IterationResult { count: 1, escaped: false });
    assert_eq!(evaluate_tests(&vec![], 0), IterationResult { count: 0, escaped: false });
}

#[test]
fn sampling_at_stops_gives_their_colors() {
    let g = Gradient::periodic();
    assert_eq!(g.sample(0, 1), rgb(255, 255, 255));
    assert_eq!(g.sample(1, 1), rgb(127, 0, 0));
    assert_eq!(g.sample(3, 1), rgb(255, 0, 0));
    assert_eq!(g.sample(14, 2), rgb(127, 255, 127));
    assert_eq!(g.sample(15, 1), rgb(63, 0, 255));
    assert_eq!(g.sample(16, 1), rgb(255, 255, 255));
}

#[test]
fn midpoint_of_white_and_black_is_truncated_grey() {
    let g = Gradient::new(vec![stop(0, 1, 1, 1), stop(2, 0, 0, 0)], 1).unwrap();
    assert_eq!(g.sample(1, 1), rgb(127, 127, 127));
    assert_eq!(g.sample(2, 2), rgb(127, 127, 127));
}

#[test]
fn sampling_clamps_outside_the_stops() {
    let g = Gradient::new(vec![stop(4, 1, 0, 0), stop(8, 0, 0, 1)], 1).unwrap();
    assert_eq!(g.sample(0, 1), rgb(255, 0, 0));
    assert_eq!(g.sample(100, 1), rgb(0, 0, 255));
    assert_eq!(g.sample(6, 1), rgb(127, 0, 127));
    assert_eq!(g.sample(5, 1), rgb(191, 0, 63));
}

#[test]
fn gradient_new_rejects_bad_stops() {
    assert!(Gradient::new(vec![], 1).is_none());
    assert!(Gradient::new(vec![stop(0, 0, 0, 0)], 0).is_none());
    assert!(Gradient::new(vec![stop(0, 2, 0, 0)], 1).is_none());
    assert!(Gradient::new(vec![stop(1, 0, 0, 0), stop(1, 1, 1, 1)], 1).is_none());
    assert!(Gradient::new(vec![stop(2, 0, 0, 0), stop(1, 1, 1, 1)], 1).is_none());
    assert!(Gradient::new(vec![stop(7, 1, 1, 1)], 1).is_some());
}

#[test]
fn periodic_shade_exact_value() {
    let g = Gradient::periodic();
    let mode = GradientMode::Periodic { interval: 10 };
    // count 5 of 10 is half way: position 8 half units, between
    // (2, 4, 2) at 7 and (0, 4, 4) at 9, quarter units
    let r = IterationResult { count: 5, escaped: true };
    assert_eq!(g.query(5, 100, mode), (80, 10));
    assert_eq!(g.shade(r, 100, mode), Some(rgb(63, 255, 191)));
    // the cycle repeats every interval
    let r15 = IterationResult { count: 15, escaped: true };
    assert_eq!(g.shade(r15, 100, mode), Some(rgb(63, 255, 191)));
    let inside = IterationResult { count: 100, escaped: false };
    assert_eq!(g.shade(inside, 100, mode), None);
}

#[test]
fn exponential_shade_exact_value() {
    let g = Gradient::exponential();
    let mode = GradientMode::Exponential;
    // count 3 of 64: position 3 * 256 / 64 = 12 half units, between
    // (2, 4, 2) at 8 and (0, 4, 4) at 16
    assert_eq!(g.query(3, 64, mode), (768, 64));
    let r = IterationResult { count: 3, escaped: true };
    assert_eq!(g.shade(r, 64, mode), Some(rgb(63, 255, 191)));
    let r0 = IterationResult { count: 0, escaped: true };
    assert_eq!(g.shade(r0, 64, mode), Some(rgb(255, 255, 255)));
    assert_eq!(g.query(90, 64, mode), (256 * 64, 64));
}

#[test]
fn grid_lists_every_pixel_once() {
    let g = pixel_grid(2, 3);
    assert_eq!(g, vec![(0, 0), (0, 1), (0, 2), (1, 0), (1, 1), (1, 2)]);
    assert!(pixel_grid(0, 5).is_empty());
}

#[test]
fn put_pixel_writes_one_cell() {
    let mut b = PixelBuffer::new(3, 2);
    assert_eq!(b.data.len(), 18);
    b.put_pixel(2, 1, rgb(1, 2, 3));
    assert_eq!(b.pixel(2, 1), rgb(1, 2, 3));
    assert_eq!(&b.data[15..18], &[1, 2, 3]);
    assert_eq!(b.pixel(0, 0), rgb(0, 0, 0));
    assert_eq!(b.pixel(1, 1), rgb(0, 0, 0));
}

#[test]
fn assembly_ignores_write_order() {
    let a = vec![
        Pixel { x: 0, y: 0, color: rgb(9, 8, 7) },
        Pixel { x: 1, y: 1, color: rgb(1, 2, 3) },
        Pixel { x: 1, y: 0, color: rgb(4, 5, 6) },
    ];
    let mut b = a.clone();
    b.reverse();
    let ba = assemble(2, 2, &a);
    let bb = assemble(2, 2, &b);
    assert_eq!(ba.data, bb.data);
    assert_eq!(ba.pixel(0, 1), rgb(0, 0, 0));
    assert_eq!(ba.pixel(1, 0), rgb(4, 5, 6));
}

#[test]
fn end_to_end_four_by_four() {
    let (w, h, take) = (4u32, 4u32, 10u32);
    let step = 2.0 / 4.0;
    let mut results = Vec::new();
    for (x, y) in pixel_grid(w, h) {
        let cr = -1.0 + step * x as f64;
        let ci = -1.0 + step * y as f64;
        results.push(PixelResult { x, y, result: escape_f64(cr, ci, take) });
    }
    let at = |x: u32, y: u32| results.iter().find(|p| p.x == x && p.y == y).unwrap().result;
    // (2, 2) is the origin, (1, 2) is -0.5: both in the set
    assert_eq!(at(2, 2), IterationResult { count: 10, escaped: false });
    assert!(!at(1, 2).escaped);
    // the corner -1 - i escapes at the third iteration
    assert_eq!(at(0, 0), IterationResult { count: 3, escaped: true });
    assert!(at(0, 0).count <= 3);

    let g = Gradient::periodic();
    let mode = GradientMode::Periodic { interval: 10 };
    let buf = render(w, h, &results, take, mode, &g);
    assert_eq!(buf.data.len(), 48);
    assert_eq!(buf.pixel(2, 2), rgb(0, 0, 0));
    let corner = g.shade(at(0, 0), take, mode).unwrap();
    assert_eq!(buf.pixel(0, 0), corner);
    // count 3 of 10: position 48 / 10 half units
    assert_eq!(corner, g.sample(48, 10));

    let mut shuffled = results.clone();
    shuffled.reverse();
    let again = render(w, h, &shuffled, take, mode, &g);
    assert_eq!(buf.data, again.data);
}

#[test]
fn parse_resolution_cases() {
    assert_eq!(parse_resolution(b"2560x1440"), Some((2560, 1440)));
    assert_eq!(parse_resolution(b"+4x4"), Some((4, 4)));
    assert_eq!(parse_resolution(b"007x1"), Some((7, 1)));
    assert_eq!(parse_resolution(b"4294967295x1"), Some((u32::MAX, 1)));
    assert_eq!(parse_resolution(b"4294967296x1"), None);
    assert_eq!(parse_resolution(b"0x5"), None);
    assert_eq!(parse_resolution(b"12"), None);
    assert_eq!(parse_resolution(b"1x2x3"), None);
    assert_eq!(parse_resolution(b"axb"), None);
    assert_eq!(parse_resolution(b"x4"), None);
    assert_eq!(parse_resolution(b"4x"), None);
    assert_eq!(parse_resolution(b"4 x4"), None);
}

#[test]
fn point_digit_counts() {
    assert_eq!(point_digits(b"-0.754"), 5);
    assert_eq!(point_digits(b"1.5,-0.754"), 5);
    assert_eq!(point_digits(b"(1.5,-0.754)"), 5);
    assert_eq!(point_digits(b"1e-5"), 8);
    assert_eq!(point_digits(b"2.5e+12,0"), 4 + 12);
    assert_eq!(point_digits(b"1e-9223372036854775808"), 20 + 1 + 9223372036854775808);
    assert_eq!(point_digits(b"1e-9223372036854775809"), 20 + 1);
    assert_eq!(point_digits(b"3ex"), 1);
    assert_eq!(point_digits(b""), 0);
}

#[test]
fn range_digit_counts() {
    assert_eq!(range_digits(b"-0.5575,-0.55"), Some(7));
    assert_eq!(range_digits(b"-1,1"), Some(2));
    assert_eq!(range_digits(b"1,2,3"), None);
    assert_eq!(range_digits(b"12"), None);
}
