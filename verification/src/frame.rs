//! Geometry of an RGBA8 frame: a row-major buffer of `width * height` pixels,
//! four bytes (red, green, blue, alpha) per pixel.

use vstd::arithmetic::div_mod::{
    lemma_fundamental_div_mod, lemma_fundamental_div_mod_converse, lemma_mod_pos_bound,
    lemma_multiply_divide_lt,
};
use vstd::prelude::*;

verus! {

/// Number of bytes that make up one pixel.
pub const BYTES_PER_PIXEL: usize = 4;

/// Number of bytes in a frame of `width * height` pixels.
pub open spec fn frame_size(width: int, height: int) -> int {
    width * height * 4
}

/// Number of bytes in one row of a frame `width` pixels wide.
pub open spec fn row_size(width: int) -> int {
    4 * width
}

/// Position in the buffer of channel `c` of the pixel at column `x`, row `y`.
pub open spec fn sample_index(width: int, x: int, y: int, c: int) -> int {
    (y * width + x) * 4 + c
}

/// Column of the pixel that byte `i` of the buffer belongs to.
pub open spec fn pixel_x(width: int, i: int) -> int {
    (i / 4) % width
}

/// Row of the pixel that byte `i` of the buffer belongs to.
pub open spec fn pixel_y(width: int, i: int) -> int {
    (i / 4) / width
}

/// Channel (0 red, 1 green, 2 blue, 3 alpha) that byte `i` of the buffer holds.
pub open spec fn channel(i: int) -> int {
    i % 4
}

/// The pixel at (`x`, `y`) lies inside the frame, and so do its four bytes.
pub proof fn lemma_pixel_in_frame(width: int, height: int, x: int, y: int)
    requires
        0 <= x < width,
        0 <= y < height,
    ensures
        0 <= y * width + x < width * height,
        0 <= sample_index(width, x, y, 0),
        sample_index(width, x, y, 3) < frame_size(width, height),
        (y * width + x) * 4 + 4 <= frame_size(width, height),
        y * width <= width * height,
{
    assert(0 <= y * width + x < width * height) by (nonlinear_arith)
        requires
            0 <= x < width,
            0 <= y < height,
    ;
    assert(y * width <= width * height) by (nonlinear_arith)
        requires
            0 <= x < width,
            0 <= y < height,
    ;
}

/// Reading byte `c` of the pixel at (`x`, `y`) back through `pixel_x`, `pixel_y`
/// and `channel` gives the same coordinates.
pub proof fn lemma_sample_coords(width: int, x: int, y: int, c: int)
    requires
        0 <= x < width,
        0 <= y,
        0 <= c < 4,
    ensures
        ({
            let i = sample_index(width, x, y, c);
            &&& (i / 4) == y * width + x
            &&& pixel_x(width, i) == x
            &&& pixel_y(width, i) == y
            &&& channel(i) == c
        }),
{
    let i = sample_index(width, x, y, c);
    assert(y * width + x >= 0) by (nonlinear_arith)
        requires
            0 <= x < width,
            0 <= y,
    ;
    lemma_fundamental_div_mod_converse(i, 4, y * width + x, c);
    lemma_fundamental_div_mod_converse(y * width + x, width, y, x);
}

/// Every byte of the frame is byte `channel(i)` of the pixel at
/// (`pixel_x(i)`, `pixel_y(i)`), and that pixel lies inside the frame.
pub proof fn lemma_index_coords(width: int, height: int, i: int)
    requires
        0 <= width,
        0 <= height,
        0 <= i < frame_size(width, height),
    ensures
        0 <= pixel_x(width, i) < width,
        0 <= pixel_y(width, i) < height,
        0 <= channel(i) < 4,
        sample_index(width, pixel_x(width, i), pixel_y(width, i), channel(i)) == i,
{
    assert(width > 0 && height > 0) by (nonlinear_arith)
        requires
            0 <= width,
            0 <= height,
            0 <= i < width * height * 4,
    ;
    let p = i / 4;
    lemma_fundamental_div_mod(i, 4);
    lemma_mod_pos_bound(i, 4);
    assert(0 <= p < width * height);
    lemma_fundamental_div_mod(p, width);
    lemma_mod_pos_bound(p, width);
    lemma_multiply_divide_lt(p, width, height);
    assert(p / width >= 0) by (nonlinear_arith)
        requires
            p >= 0,
            width > 0,
    ;
    assert(p == (p / width) * width + p % width) by (nonlinear_arith)
        requires
            p == width * (p / width) + p % width,
    ;
}

/// Length of the buffer that holds a `width` x `height` frame, or `None` when
/// that length does not fit in a `usize`.
pub fn frame_len(width: u32, height: u32) -> (len: Option<usize>)
    ensures
        len is Some <==> frame_size(width as int, height as int) <= usize::MAX,
        len matches Some(n) ==> n == frame_size(width as int, height as int),
{
    let w = width as usize;
    let h = height as usize;
    proof {
        assert(w * h <= w * h * 4) by (nonlinear_arith)
            requires
                w >= 0,
                h >= 0,
        ;
    }
    match w.checked_mul(h) {
        Some(pixels) => pixels.checked_mul(BYTES_PER_PIXEL),
        None => None,
    }
}

} // verus!
