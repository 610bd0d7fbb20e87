//! The raster pass: a row-major buffer of 8-bit intensities, filled once per
//! pixel from a caller-supplied pixel function, and the rule that turns an
//! escape count into an intensity.

use vstd::prelude::*;
use vstd::arithmetic::div_mod::lemma_fundamental_div_mod;
use vstd::arithmetic::div_mod::lemma_mod_bound;

verus! {

/// The iteration bound of the escape-time test: how many steps of the
/// quadratic recurrence a render attempts before it presumes a point to
/// belong to the set.
pub const ITERATION_LIMIT: i32 = 600;

/// The brightest intensity, drawn for a point that escapes at once.
pub const MAX_INTENSITY: u8 = 255;

/// The intensity drawn for a point that never escaped: black.
pub const INSIDE_INTENSITY: u8 = 0;

/// The intensity an escape count is drawn with: black for a point that never
/// escaped, and otherwise the brightest intensity minus the count. The count
/// enters narrowed to its low eight bits, so counts past the brightest
/// intensity wrap around: a documented quirk of the rule, kept as it is.
pub open spec fn spec_intensity(count: Option<usize>) -> u8 {
    match count {
        None => INSIDE_INTENSITY,
        Some(c) => (MAX_INTENSITY - c % 256) as u8,
    }
}

/// Turns an escape count into the 8-bit intensity that `spec_intensity`
/// states, wraparound included.
pub fn intensity(count: Option<usize>) -> (r: u8)
    ensures
        r == spec_intensity(count),
{
    match count {
        None => INSIDE_INTENSITY,
        Some(c) => MAX_INTENSITY - ((c % 256) as u8),
    }
}

/// The byte a row-major raster of the given width holds for the pixel at
/// `col`, `row`.
pub open spec fn spec_pixel(raster: Seq<u8>, width: int, col: int, row: int) -> u8 {
    raster[row * width + col]
}

/// A pixel's slot lies inside a raster of its grid.
proof fn lemma_row_major_in_range(width: int, height: int, col: int, row: int)
    by (nonlinear_arith)
    requires
        0 <= col < width,
        0 <= row < height,
    ensures
        0 <= row * width + col < width * height,
{
}

/// Distinct pixels have distinct slots.
proof fn lemma_row_major_distinct(width: int, c1: int, r1: int, c2: int, r2: int)
    by (nonlinear_arith)
    requires
        0 <= c1 < width,
        0 <= c2 < width,
        0 <= r1,
        0 <= r2,
        !(c1 == c2 && r1 == r2),
    ensures
        r1 * width + c1 != r2 * width + c2,
{
}

/// Fills `pixels`, a row-major raster of exactly `bounds.0 × bounds.1` bytes,
/// by evaluating `pixel_value` once per pixel (column, then row) and writing
/// each result into the pixel's slot. Afterwards every slot holds a value that
/// the pixel function can return for its pixel, and nothing else.
#[verifier::loop_isolation(false)]
pub fn render_with<F: Fn(usize, usize) -> u8>(
    pixels: &mut Vec<u8>,
    bounds: (usize, usize),
    pixel_value: F,
)
    requires
        old(pixels)@.len() == bounds.0 * bounds.1,
        forall|col: usize, row: usize|
            col < bounds.0 && row < bounds.1 ==> call_requires(pixel_value, (col, row)),
    ensures
        final(pixels)@.len() == bounds.0 * bounds.1,
        forall|col: usize, row: usize|
            col < bounds.0 && row < bounds.1 ==> call_ensures(
                pixel_value,
                (col, row),
                #[trigger] spec_pixel(final(pixels)@, bounds.0 as int, col as int, row as int),
            ),
{
    let width: usize = bounds.0;
    let height: usize = bounds.1;
    // The buffer's length is a `usize`, so every slot index fits one too.
    let total: usize = pixels.len();
    let mut row: usize = 0;
    while row < height
        invariant
            pixels@.len() == width * height,
            row <= height,
            forall|c: usize, r: usize|
                c < width && r < row ==> call_ensures(
                    pixel_value,
                    (c, r),
                    #[trigger] spec_pixel(pixels@, width as int, c as int, r as int),
                ),
        decreases height - row,
    {
        let mut col: usize = 0;
        while col < width
            invariant
                pixels@.len() == width * height,
                col <= width,
                row < height,
                forall|c: usize, r: usize|
                    c < width && r < row ==> call_ensures(
                        pixel_value,
                        (c, r),
                        #[trigger] spec_pixel(pixels@, width as int, c as int, r as int),
                    ),
                forall|c: usize|
                    c < col ==> call_ensures(
                        pixel_value,
                        (c, row),
                        #[trigger] spec_pixel(pixels@, width as int, c as int, row as int),
                    ),
            decreases width - col,
        {
            let v: u8 = pixel_value(col, row);
            proof {
                lemma_row_major_in_range(width as int, height as int, col as int, row as int);
            }
            let idx: usize = row * width + col;
            let ghost prev = pixels@;
            pixels[idx] = v;
            proof {
                assert forall|c: usize, r: usize|
                    c < width && r < row implies call_ensures(
                    pixel_value,
                    (c, r),
                    #[trigger] spec_pixel(pixels@, width as int, c as int, r as int),
                ) by {
                    lemma_row_major_in_range(width as int, height as int, c as int, r as int);
                    lemma_row_major_distinct(width as int, c as int, r as int, col as int, row as int);
                    assert(spec_pixel(pixels@, width as int, c as int, r as int) == spec_pixel(
                        prev,
                        width as int,
                        c as int,
                        r as int,
                    ));
                }
                assert forall|c: usize| c < col + 1 implies call_ensures(
                    pixel_value,
                    (c, row),
                    #[trigger] spec_pixel(pixels@, width as int, c as int, row as int),
                ) by {
                    if c < col {
                        lemma_row_major_in_range(width as int, height as int, c as int, row as int);
                        lemma_row_major_distinct(
                            width as int,
                            c as int,
                            row as int,
                            col as int,
                            row as int,
                        );
                        assert(spec_pixel(pixels@, width as int, c as int, row as int)
                            == spec_pixel(prev, width as int, c as int, row as int));
                    } else {
                        assert(spec_pixel(pixels@, width as int, c as int, row as int) == v);
                    }
                }
            }
            col += 1;
        }
        row += 1;
    }
}

/// A raster is a function of the bounds and the per-pixel rule alone: two
/// buffers whose every slot records the rule `g` at its pixel are equal, so
/// rendering the same bounds and plane rectangle twice yields an identical
/// buffer.
pub proof fn lemma_raster_deterministic(
    p1: Seq<u8>,
    p2: Seq<u8>,
    bounds: (usize, usize),
    g: spec_fn(usize, usize) -> u8,
)
    requires
        p1.len() == bounds.0 * bounds.1,
        p2.len() == bounds.0 * bounds.1,
        forall|col: usize, row: usize|
            col < bounds.0 && row < bounds.1 ==> #[trigger] spec_pixel(
                p1,
                bounds.0 as int,
                col as int,
                row as int,
            ) == g(col, row),
        forall|col: usize, row: usize|
            col < bounds.0 && row < bounds.1 ==> #[trigger] spec_pixel(
                p2,
                bounds.0 as int,
                col as int,
                row as int,
            ) == g(col, row),
    ensures
        p1 == p2,
{
    let w = bounds.0 as int;
    let h = bounds.1 as int;
    assert forall|i: int| 0 <= i < p1.len() implies p1[i] == p2[i] by {
        assert(w * h > 0);
        assert(w > 0) by {
            if w <= 0 {
                assert(w * h <= 0) by (nonlinear_arith)
                    requires
                        w <= 0,
                        h >= 0,
                ;
            }
        }
        lemma_fundamental_div_mod(i, w);
        lemma_mod_bound(i, w);
        let c = i % w;
        let r = i / w;
        assert(0 <= r && r < h) by (nonlinear_arith)
            requires
                i == w * r + c,
                0 <= c < w,
                0 <= i < w * h,
        ;
        let cu = c as usize;
        let ru = r as usize;
        assert(cu < bounds.0 && ru < bounds.1);
        assert(i == r * w + c);
        assert(p1[i] == spec_pixel(p1, w, cu as int, ru as int));
        assert(p2[i] == spec_pixel(p2, w, cu as int, ru as int));
        assert(spec_pixel(p1, w, cu as int, ru as int) == g(cu, ru));
        assert(spec_pixel(p2, w, cu as int, ru as int) == g(cu, ru));
    }
    assert(p1 =~= p2);
}

} // verus!
