use mandelbrot::escape::escape_time_with;
use mandelbrot::raster::intensity;
use mandelbrot::raster::render_with;
use mandelbrot::raster::INSIDE_INTENSITY;
use mandelbrot::raster::ITERATION_LIMIT;
use mandelbrot::raster::MAX_INTENSITY;

/// The escape-time test over double-precision points: the library's loop, fed
/// the quadratic recurrence and the magnitude check as its probe.
fn escape_time(c: (f64, f64), limit: i32) -> Option<usize> {
    escape_time_with(
        (0.0f64, 0.0f64),
        |z: (f64, f64)| {
            (
                z.0 * z.0 + z.1 * z.1 > 4.0,
                (z.0 * z.0 - z.1 * z.1 + c.0, z.0 * z.1 + z.1 * z.0 + c.1),
            )
        },
        limit,
    )
}

/// The affine map from a pixel to its plane point, as the renderer's callers
/// supply it.
fn pixel_to_point(
    bounds: (usize, usize),
    pixel: (usize, usize),
    upper_left: (f64, f64),
    lower_right: (f64, f64),
) -> (f64, f64) {
    let (width, height) = (lower_right.0 - upper_left.0, upper_left.1 - lower_right.1);
    (
        upper_left.0 + pixel.0 as f64 * width / bounds.0 as f64,
        upper_left.1 - pixel.1 as f64 * height / bounds.1 as f64,
    )
}

fn mandelbrot_pixel(
    bounds: (usize, usize),
    column: usize,
    row: usize,
    upper_left: (f64, f64),
    lower_right: (f64, f64),
) -> u8 {
    let point = pixel_to_point(bounds, (column, row), upper_left, lower_right);
    intensity(escape_time(point, ITERATION_LIMIT))
}

#[test]
fn test_render() {
    let bounds = (3, 3);
    let upper_left = (-2.0, 1.0);
    let lower_right = (1.0, -1.0);
    let mut pixels = vec![0; bounds.0 * bounds.1];

    render_with(&mut pixels, bounds, |column, row| {
        mandelbrot_pixel(bounds, column, row, upper_left, lower_right)
    });

    let expected_pixels = vec![254, 252, 0, 254, 244, 0, 254, 244, 0];

    assert_eq!(pixels, expected_pixels);
}

#[test]
fn rendering_twice_gives_an_identical_buffer() {
    let bounds = (4, 3);
    let upper_left = (-2.0, 1.0);
    let lower_right = (1.0, -1.0);
    let mut first = vec![0; bounds.0 * bounds.1];
    let mut second = vec![9; bounds.0 * bounds.1];

    render_with(&mut first, bounds, |column, row| {
        mandelbrot_pixel(bounds, column, row, upper_left, lower_right)
    });
    render_with(&mut second, bounds, |column, row| {
        mandelbrot_pixel(bounds, column, row, upper_left, lower_right)
    });

    assert_eq!(first, second);
}

#[test]
fn a_point_inside_the_set_renders_black() {
    // A single pixel whose plane point is the origin: it never escapes.
    let bounds = (1, 1);
    let mut pixels = vec![7];
    render_with(&mut pixels, bounds, |column, row| {
        mandelbrot_pixel(bounds, column, row, (0.0, 0.0), (1.0, -1.0))
    });
    assert_eq!(pixels, vec![INSIDE_INTENSITY]);
}

#[test]
fn a_point_far_outside_escapes_after_one_update() {
    // The first check sees the origin, so the escape is at step one, not zero.
    let bounds = (1, 1);
    let mut pixels = vec![0];
    render_with(&mut pixels, bounds, |column, row| {
        mandelbrot_pixel(bounds, column, row, (5.9, 0.0), (6.9, -1.0))
    });
    assert_eq!(pixels, vec![254]);
}

#[test]
fn intensity_fades_from_white_and_wraps() {
    assert_eq!(intensity(None), INSIDE_INTENSITY);
    assert_eq!(intensity(Some(0)), MAX_INTENSITY);
    assert_eq!(intensity(Some(1)), 254);
    assert_eq!(intensity(Some(255)), 0);
    assert_eq!(intensity(Some(256)), 255);
    assert_eq!(intensity(Some(300)), 211);
    assert_eq!(intensity(Some(599)), 168);
}

#[test]
fn raster_is_row_major_and_fills_every_slot() {
    let bounds = (3, 2);
    let mut pixels = vec![9; 6];
    render_with(&mut pixels, bounds, |column, row| (row * 10 + column) as u8);
    assert_eq!(pixels, vec![0, 1, 2, 10, 11, 12]);
}

#[test]
fn render_overwrites_whatever_the_buffer_held() {
    let bounds = (2, 2);
    let mut pixels = vec![1, 2, 3, 4];
    render_with(&mut pixels, bounds, |_, _| 9);
    assert_eq!(pixels, vec![9, 9, 9, 9]);
}
