//! Box blur of an RGBA8 frame.
//!
//! Each pass replaces the red, green and blue bytes of every pixel by the
//! average of that channel over the square window of side `2 * radius + 1`
//! centred on the pixel, clipped to the frame; the alpha byte is kept. The
//! arithmetic follows the signed 32-bit coordinates and window offsets and
//! the unsigned 32-bit sums that the filter works with: pixel coordinates and
//! frame sides are converted to `i32` (see `as_signed`).

use crate::frame;
use vstd::prelude::*;

verus! {

/// Version of the plugin interface that the blur filter implements.
pub const API_VERSION: u32 = 1;

/// Status reported when the frame was processed.
pub const STATUS_OK: i32 = 0;

/// Status reported when the frame's byte length does not fit in a `usize`.
pub const STATUS_SIZE_OVERFLOW: i32 = 2;

/// Reports the plugin interface version.
pub fn plugin_api_version() -> (version: u32)
    ensures
        version == API_VERSION,
{
    API_VERSION
}

/// Parameters of the blur filter.
pub struct BlurParams {
    /// Half the side of the averaging window, in pixels.
    pub radius: u32,
    /// Number of passes.
    pub iterations: u32,
}

impl BlurParams {
    /// The parameters used when none could be read: radius 1, one pass.
    pub fn fallback() -> (params: BlurParams)
        ensures
            params.radius == 1,
            params.iterations == 1,
    {
        BlurParams { radius: 1, iterations: 1 }
    }
}

/// The radius the pass works with: the requested radius converted to a
/// signed 32-bit integer (a negative value gives an empty window).
pub open spec fn window_radius(radius: usize) -> int {
    (radius as i32) as int
}

/// First row (or column) of the window around `center`.
pub open spec fn window_start(center: int, r: int) -> int {
    if center - r > 0 {
        center - r
    } else {
        0
    }
}

/// One past the last row (or column) of the window around `center`, where
/// `bound` is the height (or width) of the frame.
pub open spec fn window_end(center: int, r: int, bound: int) -> int {
    if center + r + 1 < bound {
        center + r + 1
    } else {
        bound
    }
}

/// Number of integers in `[lo, hi)`.
pub open spec fn span(lo: int, hi: int) -> int {
    if lo < hi {
        hi - lo
    } else {
        0
    }
}

/// Sum of channel `c` over the pixels of row `ny` with column in `[lo, hi)`.
pub open spec fn row_sum(frame: Seq<u8>, width: int, ny: int, lo: int, hi: int, c: int) -> int
    decreases hi - lo,
{
    if hi <= lo {
        0
    } else {
        row_sum(frame, width, ny, lo, hi - 1, c) + frame[frame::sample_index(width, hi - 1, ny, c)]
    }
}

/// Sum of channel `c` over the pixels with row in `[ylo, yhi)` and column in
/// `[xlo, xhi)`.
pub open spec fn area_sum(
    frame: Seq<u8>,
    width: int,
    ylo: int,
    yhi: int,
    xlo: int,
    xhi: int,
    c: int,
) -> int
    decreases yhi - ylo,
{
    if yhi <= ylo {
        0
    } else {
        area_sum(frame, width, ylo, yhi - 1, xlo, xhi, c) + row_sum(frame, width, yhi - 1, xlo, xhi, c)
    }
}

/// Number of pixels of the frame in the window around (`x`, `y`).
pub open spec fn window_count(width: int, height: int, r: int, x: int, y: int) -> int {
    span(window_start(y, r), window_end(y, r, height)) * span(
        window_start(x, r),
        window_end(x, r, width),
    )
}

/// Sum of channel `c` over the window around (`x`, `y`).
pub open spec fn window_sum(
    frame: Seq<u8>,
    width: int,
    height: int,
    r: int,
    x: int,
    y: int,
    c: int,
) -> int {
    area_sum(
        frame,
        width,
        window_start(y, r),
        window_end(y, r, height),
        window_start(x, r),
        window_end(x, r, width),
        c,
    )
}

/// A frame coordinate or side as the pass sees it: converted to a signed
/// 32-bit integer, so that values of 2^31 and more wrap around.
pub open spec fn as_signed(n: int) -> int {
    (n as i32) as int
}

/// Number of pixels in the window of the pixel at (`x`, `y`), as the pass
/// counts it: on the frame's coordinates and sides converted by `as_signed`.
pub open spec fn pixel_window_count(width: int, height: int, r: int, x: int, y: int) -> int {
    window_count(as_signed(width), as_signed(height), r, as_signed(x), as_signed(y))
}

/// Sum of channel `c` over the window of the pixel at (`x`, `y`), as the
/// pass sums it: on converted coordinates, reading the pixel at converted
/// column `nx` and row `ny` at position `(ny * w' + nx) * 4 + c`, where `w'`
/// is the converted width.
pub open spec fn pixel_window_sum(
    frame: Seq<u8>,
    width: int,
    height: int,
    r: int,
    x: int,
    y: int,
    c: int,
) -> int {
    window_sum(frame, as_signed(width), as_signed(height), r, as_signed(x), as_signed(y), c)
}

/// Byte `c` of the pixel at (`x`, `y`) after one pass: the alpha byte, and
/// every byte of a pixel whose window is empty, are kept; the others become
/// the window average.
pub open spec fn blurred_sample(
    frame: Seq<u8>,
    width: int,
    height: int,
    r: int,
    x: int,
    y: int,
    c: int,
) -> u8 {
    if c == 3 || pixel_window_count(width, height, r, x, y) == 0 {
        frame[frame::sample_index(width, x, y, c)]
    } else {
        (pixel_window_sum(frame, width, height, r, x, y, c) / pixel_window_count(
            width,
            height,
            r,
            x,
            y,
        )) as u8
    }
}

/// The frame after one pass with window radius `r`.
pub open spec fn blurred(frame: Seq<u8>, width: int, height: int, r: int) -> Seq<u8> {
    Seq::new(
        frame::frame_size(width, height) as nat,
        |i: int|
            blurred_sample(
                frame,
                width,
                height,
                r,
                frame::pixel_x(width, i),
                frame::pixel_y(width, i),
                frame::channel(i),
            ),
    )
}

/// A pass over a `width` x `height` frame stays within the signed 32-bit
/// window arithmetic: the radius negates; with a positive radius, a window
/// row and a window column fit; and the position of the last pixel that any
/// window reaches fits.
pub open spec fn pass_geometry_ok(width: int, height: int, radius: usize) -> bool {
    let r = window_radius(radius);
    let w = as_signed(width);
    let h = as_signed(height);
    width == 0 || height == 0 || (r != i32::MIN && (r < 0 || ((r == 0 || (width - 1 + r
        <= i32::MAX && height - 1 + r <= i32::MAX)) && (w <= 0 || h <= 0 || w * h <= i32::MAX
        + 1))))
}

/// Every window sum of the red, green and blue channels fits in a `u32`.
pub open spec fn window_sums_fit(frame: Seq<u8>, width: int, height: int, r: int) -> bool {
    forall|x: int, y: int, c: int|
        0 <= x < width && 0 <= y < height && 0 <= c < 3 ==> #[trigger] pixel_window_sum(
            frame,
            width,
            height,
            r,
            x,
            y,
            c,
        ) <= u32::MAX
}

/// The frame's sides are below 2^32, so that converting a coordinate by
/// `as_signed` either keeps it or, for a side above `i32::MAX`, leaves that
/// side without any pixel in range.
pub open spec fn sides_below_2_32(width: int, height: int) -> bool {
    0 <= width < 0x1_0000_0000 && 0 <= height < 0x1_0000_0000
}

proof fn lemma_cast_bits(n: u64)
    by (bit_vector)
    ensures
        n <= 0x7fff_ffff ==> (n as i32) == n,
        (n as i32) > 0 ==> (n as i32) <= n,
        0x7fff_ffff < n < 0x1_0000_0000 ==> (n as i32) < 0,
{
}

/// Converting a `usize` by `as_signed` keeps values up to `i32::MAX`, never
/// gives a positive value above the original, and sends values from 2^31 to
/// 2^32 - 1 to negative numbers.
pub proof fn lemma_as_signed(n: usize)
    ensures
        n <= i32::MAX ==> as_signed(n as int) == n,
        as_signed(n as int) > 0 ==> as_signed(n as int) <= n,
        i32::MAX < n < 0x1_0000_0000 ==> as_signed(n as int) < 0,
{
    lemma_cast_bits(n as u64);
    assert((n as u64) as i32 == n as i32);
}

/// The frame after `k` passes with window radius `r`.
pub open spec fn blur_passes(frame: Seq<u8>, width: int, height: int, r: int, k: nat) -> Seq<u8>
    decreases k,
{
    if k == 0 {
        frame
    } else {
        blurred(blur_passes(frame, width, height, r, (k - 1) as nat), width, height, r)
    }
}

/// Each of the first `k` passes over `frame` runs to completion.
pub open spec fn passes_complete(frame: Seq<u8>, width: int, height: int, radius: usize, k: nat) -> bool
    decreases k,
{
    k == 0 || (passes_complete(frame, width, height, radius, (k - 1) as nat) && pass_completes(
        blur_passes(frame, width, height, window_radius(radius), (k - 1) as nat),
        width,
        height,
        radius,
    ))
}

/// A pass over `frame` runs to completion.
pub open spec fn pass_completes(frame: Seq<u8>, width: int, height: int, radius: usize) -> bool {
    pass_geometry_ok(width, height, radius) && window_sums_fit(
        frame,
        width,
        height,
        window_radius(radius),
    )
}

proof fn lemma_row_sum_nonneg(frame: Seq<u8>, width: int, ny: int, lo: int, hi: int, c: int)
    ensures
        0 <= row_sum(frame, width, ny, lo, hi, c),
    decreases hi - lo,
{
    if hi > lo {
        lemma_row_sum_nonneg(frame, width, ny, lo, hi - 1, c);
    }
}

proof fn lemma_row_sum_mono(
    frame: Seq<u8>,
    width: int,
    ny: int,
    lo: int,
    hi1: int,
    hi2: int,
    c: int,
)
    requires
        lo <= hi1 <= hi2,
    ensures
        row_sum(frame, width, ny, lo, hi1, c) <= row_sum(frame, width, ny, lo, hi2, c),
    decreases hi2 - hi1,
{
    if hi1 < hi2 {
        lemma_row_sum_mono(frame, width, ny, lo, hi1, hi2 - 1, c);
    }
}

proof fn lemma_area_sum_mono(
    frame: Seq<u8>,
    width: int,
    ylo: int,
    yhi1: int,
    yhi2: int,
    xlo: int,
    xhi: int,
    c: int,
)
    requires
        ylo <= yhi1 <= yhi2,
    ensures
        area_sum(frame, width, ylo, yhi1, xlo, xhi, c) <= area_sum(
            frame,
            width,
            ylo,
            yhi2,
            xlo,
            xhi,
            c,
        ),
    decreases yhi2 - yhi1,
{
    if yhi1 < yhi2 {
        lemma_area_sum_mono(frame, width, ylo, yhi1, yhi2 - 1, xlo, xhi, c);
        lemma_row_sum_nonneg(frame, width, yhi2 - 1, xlo, xhi, c);
    }
}

/// A running window sum, stopped at any pixel of the window, is at most the
/// whole window sum.
proof fn lemma_partial_le_area(
    frame: Seq<u8>,
    width: int,
    ylo: int,
    yhi: int,
    xlo: int,
    xhi: int,
    ny: int,
    nx: int,
    c: int,
)
    requires
        ylo <= ny < yhi,
        xlo <= nx < xhi,
    ensures
        area_sum(frame, width, ylo, ny, xlo, xhi, c) + row_sum(frame, width, ny, xlo, nx + 1, c)
            <= area_sum(frame, width, ylo, yhi, xlo, xhi, c),
{
    lemma_row_sum_mono(frame, width, ny, xlo, nx + 1, xhi, c);
    lemma_area_sum_mono(frame, width, ylo, ny + 1, yhi, xlo, xhi, c);
}

/// Every pixel of the `width` x `height` frame has the colour and alpha of
/// the first pixel.
pub open spec fn uniform(frame: Seq<u8>, width: int, height: int) -> bool {
    forall|x: int, y: int, c: int|
        0 <= x < width && 0 <= y < height && 0 <= c < 4 ==> #[trigger] frame[frame::sample_index(
            width,
            x,
            y,
            c,
        )] == frame[c]
}

proof fn lemma_row_sum_bound(frame: Seq<u8>, width: int, ny: int, lo: int, hi: int, c: int)
    requires
        lo <= hi,
    ensures
        row_sum(frame, width, ny, lo, hi, c) <= 255 * (hi - lo),
    decreases hi - lo,
{
    if hi > lo {
        lemma_row_sum_bound(frame, width, ny, lo, hi - 1, c);
    }
}

proof fn lemma_area_sum_bound(
    frame: Seq<u8>,
    width: int,
    ylo: int,
    yhi: int,
    xlo: int,
    xhi: int,
    c: int,
)
    requires
        ylo <= yhi,
        xlo <= xhi,
    ensures
        area_sum(frame, width, ylo, yhi, xlo, xhi, c) <= 255 * ((yhi - ylo) * (xhi - xlo)),
    decreases yhi - ylo,
{
    if yhi > ylo {
        lemma_area_sum_bound(frame, width, ylo, yhi - 1, xlo, xhi, c);
        lemma_row_sum_bound(frame, width, yhi - 1, xlo, xhi, c);
        assert(255 * ((yhi - 1 - ylo) * (xhi - xlo)) + 255 * (xhi - xlo) == 255 * ((yhi - ylo) * (
        xhi - xlo))) by (nonlinear_arith);
    }
}

proof fn lemma_row_sum_const(frame: Seq<u8>, width: int, ny: int, lo: int, hi: int, c: int, v: int)
    requires
        lo <= hi,
        forall|nx: int| lo <= nx < hi ==> #[trigger] frame[frame::sample_index(width, nx, ny, c)] == v,
    ensures
        row_sum(frame, width, ny, lo, hi, c) == v * (hi - lo),
    decreases hi - lo,
{
    if hi > lo {
        lemma_row_sum_const(frame, width, ny, lo, hi - 1, c, v);
        assert(frame[frame::sample_index(width, hi - 1, ny, c)] == v);
        assert(v * (hi - 1 - lo) + v == v * (hi - lo)) by (nonlinear_arith);
    } else {
        assert(v * (hi - lo) == 0) by (nonlinear_arith)
            requires
                hi == lo,
        ;
    }
}

proof fn lemma_area_sum_const(
    frame: Seq<u8>,
    width: int,
    ylo: int,
    yhi: int,
    xlo: int,
    xhi: int,
    c: int,
    v: int,
)
    requires
        ylo <= yhi,
        xlo <= xhi,
        forall|nx: int, ny: int|
            xlo <= nx < xhi && ylo <= ny < yhi ==> #[trigger] frame[frame::sample_index(
                width,
                nx,
                ny,
                c,
            )] == v,
    ensures
        area_sum(frame, width, ylo, yhi, xlo, xhi, c) == v * ((yhi - ylo) * (xhi - xlo)),
    decreases yhi - ylo,
{
    if yhi > ylo {
        lemma_area_sum_const(frame, width, ylo, yhi - 1, xlo, xhi, c, v);
        assert forall|nx: int| xlo <= nx < xhi implies #[trigger] frame[frame::sample_index(
            width,
            nx,
            yhi - 1,
            c,
        )] == v by {}
        lemma_row_sum_const(frame, width, yhi - 1, xlo, xhi, c, v);
        assert(v * ((yhi - 1 - ylo) * (xhi - xlo)) + v * (xhi - xlo) == v * ((yhi - ylo) * (xhi
            - xlo))) by (nonlinear_arith);
    } else {
        assert(v * ((yhi - ylo) * (xhi - xlo)) == 0) by (nonlinear_arith)
            requires
                yhi == ylo,
        ;
    }
}

/// A window sum is at most 255 per pixel of the window.
proof fn lemma_window_sum_bound(
    frame: Seq<u8>,
    width: int,
    height: int,
    r: int,
    x: int,
    y: int,
    c: int,
)
    ensures
        0 <= window_sum(frame, width, height, r, x, y, c) <= 255 * window_count(
            width,
            height,
            r,
            x,
            y,
        ),
{
    let ys = window_start(y, r);
    let ye = window_end(y, r, height);
    let xs = window_start(x, r);
    let xe = window_end(x, r, width);
    if ys < ye && xs < xe {
        lemma_area_sum_bound(frame, width, ys, ye, xs, xe, c);
        lemma_area_sum_mono(frame, width, ys, ys, ye, xs, xe, c);
    } else if ys < ye {
        lemma_area_sum_empty_columns(frame, width, ys, ye, xs, xe, c);
        assert(window_count(width, height, r, x, y) == 0) by (nonlinear_arith)
            requires
                span(xs, xe) == 0,
                window_count(width, height, r, x, y) == span(ys, ye) * span(xs, xe),
        ;
    } else {
        assert(window_count(width, height, r, x, y) == 0) by (nonlinear_arith)
            requires
                span(ys, ye) == 0,
                window_count(width, height, r, x, y) == span(ys, ye) * span(xs, xe),
        ;
    }
}

/// An area with no columns sums to 0.
proof fn lemma_area_sum_empty_columns(
    frame: Seq<u8>,
    width: int,
    ylo: int,
    yhi: int,
    xlo: int,
    xhi: int,
    c: int,
)
    requires
        xhi <= xlo,
    ensures
        area_sum(frame, width, ylo, yhi, xlo, xhi, c) == 0,
    decreases yhi - ylo,
{
    if yhi > ylo {
        lemma_area_sum_empty_columns(frame, width, ylo, yhi - 1, xlo, xhi, c);
    }
}

/// With radius 0 the window of a pixel is the pixel itself when its
/// converted coordinates lie inside the converted frame, and empty otherwise.
proof fn lemma_point_window(frame: Seq<u8>, width: int, height: int, x: int, y: int, c: int)
    ensures
        ({
            let w = as_signed(width);
            let h = as_signed(height);
            let sx = as_signed(x);
            let sy = as_signed(y);
            &&& (0 <= sx < w && 0 <= sy < h) ==> pixel_window_count(width, height, 0, x, y) == 1
                && pixel_window_sum(frame, width, height, 0, x, y, c) == frame[frame::sample_index(
                w,
                sx,
                sy,
                c,
            )]
            &&& !(0 <= sx < w && 0 <= sy < h) ==> pixel_window_count(width, height, 0, x, y) == 0
                && pixel_window_sum(frame, width, height, 0, x, y, c) == 0
        }),
{
    let w = as_signed(width);
    let h = as_signed(height);
    let sx = as_signed(x);
    let sy = as_signed(y);
    lemma_window_sum_bound(frame, w, h, 0, sx, sy, c);
    if 0 <= sx < w && 0 <= sy < h {
        assert(span(window_start(sy, 0), window_end(sy, 0, h)) == 1);
        assert(span(window_start(sx, 0), window_end(sx, 0, w)) == 1);
        assert(area_sum(frame, w, sy, sy + 1, sx, sx + 1, c) == area_sum(frame, w, sy, sy, sx, sx + 1, c)
            + row_sum(frame, w, sy, sx, sx + 1, c));
        assert(row_sum(frame, w, sy, sx, sx + 1, c) == row_sum(frame, w, sy, sx, sx, c)
            + frame[frame::sample_index(w, sx, sy, c)]);
    } else {
        assert(span(window_start(sy, 0), window_end(sy, 0, h)) == 0 || span(
            window_start(sx, 0),
            window_end(sx, 0, w),
        ) == 0);
        assert(pixel_window_count(width, height, 0, x, y) == 0) by (nonlinear_arith)
            requires
                span(window_start(sy, 0), window_end(sy, 0, h)) == 0 || span(
                    window_start(sx, 0),
                    window_end(sx, 0, w),
                ) == 0,
                pixel_window_count(width, height, 0, x, y) == span(
                    window_start(sy, 0),
                    window_end(sy, 0, h),
                ) * span(window_start(sx, 0), window_end(sx, 0, w)),
        ;
    }
}

/// For coordinates up to `i32::MAX` the pass's window is the plain window.
pub proof fn lemma_plain_window(frame: Seq<u8>, width: int, height: int, r: int, x: int, y: int, c: int)
    requires
        0 <= x < width <= i32::MAX,
        0 <= y < height <= i32::MAX,
    ensures
        pixel_window_count(width, height, r, x, y) == window_count(width, height, r, x, y),
        pixel_window_sum(frame, width, height, r, x, y, c) == window_sum(
            frame,
            width,
            height,
            r,
            x,
            y,
            c,
        ),
{
    lemma_as_signed(width as usize);
    lemma_as_signed(height as usize);
    lemma_as_signed(x as usize);
    lemma_as_signed(y as usize);
}

/// When a side of the frame converts to a value below 1, every window of
/// the pass is empty.
pub proof fn lemma_no_window(width: int, height: int, r: int, x: int, y: int)
    requires
        as_signed(width) < 1 || as_signed(height) < 1,
    ensures
        pixel_window_count(width, height, r, x, y) == 0,
{
    let w = as_signed(width);
    let h = as_signed(height);
    let sx = as_signed(x);
    let sy = as_signed(y);
    let sy_span = span(window_start(sy, r), window_end(sy, r, h));
    let sx_span = span(window_start(sx, r), window_end(sx, r, w));
    assert(sy_span == 0 || sx_span == 0);
    assert(sy_span * sx_span == 0) by (nonlinear_arith)
        requires
            sy_span == 0 || sx_span == 0,
    ;
}

/// The window average of every channel is a byte value: converting it to
/// `u8` loses nothing.
pub proof fn lemma_window_average_fits(
    frame: Seq<u8>,
    width: int,
    height: int,
    r: int,
    x: int,
    y: int,
    c: int,
)
    requires
        window_count(width, height, r, x, y) > 0,
    ensures
        0 <= window_sum(frame, width, height, r, x, y, c) / window_count(width, height, r, x, y)
            <= 255,
{
    lemma_window_sum_bound(frame, width, height, r, x, y, c);
    let count = window_count(width, height, r, x, y);
    let total = window_sum(frame, width, height, r, x, y, c);
    assert(0 <= total / count <= 255) by (nonlinear_arith)
        requires
            0 <= total <= 255 * count,
            count > 0,
    ;
}

/// Row sums follow a byte-by-byte order between two frames.
proof fn lemma_row_sum_le(
    f1: Seq<u8>,
    f2: Seq<u8>,
    width: int,
    ny: int,
    lo: int,
    hi: int,
    c: int,
)
    requires
        forall|nx: int|
            lo <= nx < hi ==> #[trigger] f1[frame::sample_index(width, nx, ny, c)]
                <= f2[frame::sample_index(width, nx, ny, c)],
    ensures
        row_sum(f1, width, ny, lo, hi, c) <= row_sum(f2, width, ny, lo, hi, c),
    decreases hi - lo,
{
    if hi > lo {
        lemma_row_sum_le(f1, f2, width, ny, lo, hi - 1, c);
        assert(f1[frame::sample_index(width, hi - 1, ny, c)] <= f2[frame::sample_index(
            width,
            hi - 1,
            ny,
            c,
        )]);
    }
}

/// Area sums follow a byte-by-byte order between two frames.
proof fn lemma_area_sum_le(
    f1: Seq<u8>,
    f2: Seq<u8>,
    width: int,
    ylo: int,
    yhi: int,
    xlo: int,
    xhi: int,
    c: int,
)
    requires
        forall|nx: int, ny: int|
            xlo <= nx < xhi && ylo <= ny < yhi ==> #[trigger] f1[frame::sample_index(
                width,
                nx,
                ny,
                c,
            )] <= f2[frame::sample_index(width, nx, ny, c)],
    ensures
        area_sum(f1, width, ylo, yhi, xlo, xhi, c) <= area_sum(f2, width, ylo, yhi, xlo, xhi, c),
    decreases yhi - ylo,
{
    if yhi > ylo {
        lemma_area_sum_le(f1, f2, width, ylo, yhi - 1, xlo, xhi, c);
        assert forall|nx: int| xlo <= nx < xhi implies #[trigger] f1[frame::sample_index(
            width,
            nx,
            yhi - 1,
            c,
        )] <= f2[frame::sample_index(width, nx, yhi - 1, c)] by {}
        lemma_row_sum_le(f1, f2, width, yhi - 1, xlo, xhi, c);
    }
}

/// Row sums of bytes between `a` and `b` lie between `a` and `b` times the
/// number of pixels.
proof fn lemma_row_sum_between(
    frame: Seq<u8>,
    width: int,
    ny: int,
    lo: int,
    hi: int,
    c: int,
    a: int,
    b: int,
)
    requires
        lo <= hi,
        forall|nx: int|
            lo <= nx < hi ==> a <= #[trigger] frame[frame::sample_index(width, nx, ny, c)] <= b,
    ensures
        a * (hi - lo) <= row_sum(frame, width, ny, lo, hi, c) <= b * (hi - lo),
    decreases hi - lo,
{
    if hi > lo {
        lemma_row_sum_between(frame, width, ny, lo, hi - 1, c, a, b);
        assert(a <= frame[frame::sample_index(width, hi - 1, ny, c)] <= b);
        assert(a * (hi - 1 - lo) + a == a * (hi - lo) && b * (hi - 1 - lo) + b == b * (hi - lo))
            by (nonlinear_arith);
    } else {
        assert(a * (hi - lo) == 0 && b * (hi - lo) == 0) by (nonlinear_arith)
            requires
                hi == lo,
        ;
    }
}

/// Area sums of bytes between `a` and `b` lie between `a` and `b` times the
/// number of pixels.
proof fn lemma_area_sum_between(
    frame: Seq<u8>,
    width: int,
    ylo: int,
    yhi: int,
    xlo: int,
    xhi: int,
    c: int,
    a: int,
    b: int,
)
    requires
        ylo <= yhi,
        xlo <= xhi,
        forall|nx: int, ny: int|
            xlo <= nx < xhi && ylo <= ny < yhi ==> a <= #[trigger] frame[frame::sample_index(
                width,
                nx,
                ny,
                c,
            )] <= b,
    ensures
        a * ((yhi - ylo) * (xhi - xlo)) <= area_sum(frame, width, ylo, yhi, xlo, xhi, c) <= b * ((
        yhi - ylo) * (xhi - xlo)),
    decreases yhi - ylo,
{
    if yhi > ylo {
        lemma_area_sum_between(frame, width, ylo, yhi - 1, xlo, xhi, c, a, b);
        assert forall|nx: int| xlo <= nx < xhi implies a <= #[trigger] frame[frame::sample_index(
            width,
            nx,
            yhi - 1,
            c,
        )] <= b by {}
        lemma_row_sum_between(frame, width, yhi - 1, xlo, xhi, c, a, b);
        assert(a * ((yhi - 1 - ylo) * (xhi - xlo)) + a * (xhi - xlo) == a * ((yhi - ylo) * (xhi
            - xlo)) && b * ((yhi - 1 - ylo) * (xhi - xlo)) + b * (xhi - xlo) == b * ((yhi - ylo)
            * (xhi - xlo))) by (nonlinear_arith);
    } else {
        assert(a * ((yhi - ylo) * (xhi - xlo)) == 0 && b * ((yhi - ylo) * (xhi - xlo)) == 0)
            by (nonlinear_arith)
            requires
                yhi == ylo,
        ;
    }
}

/// A pixel inside the converted frame lies inside the frame: its byte of
/// channel `c` is a byte of the frame of that channel.
proof fn lemma_converted_position(width: int, height: int, nx: int, ny: int, c: int)
    requires
        0 <= width <= usize::MAX,
        0 <= height <= usize::MAX,
        0 <= nx < as_signed(width),
        0 <= ny < as_signed(height),
        0 <= c < 4,
    ensures
        0 <= frame::sample_index(as_signed(width), nx, ny, c) < frame::frame_size(width, height),
        frame::channel(frame::sample_index(as_signed(width), nx, ny, c)) == c,
{
    let w = as_signed(width);
    let h = as_signed(height);
    lemma_side_bound(width);
    lemma_side_bound(height);
    let p = ny * w + nx;
    let j = frame::sample_index(w, nx, ny, c);
    assert(0 <= p < width * height) by (nonlinear_arith)
        requires
            p == ny * w + nx,
            0 <= nx < w <= width,
            0 <= ny < h <= height,
    ;
    assert(j == p * 4 + c);
    vstd::arithmetic::div_mod::lemma_fundamental_div_mod_converse(j, 4, p, c);
}

/// Blurring keeps the order of colours: when every colour byte of `f1` is at
/// most the same byte of `f2`, every colour byte of the blurred `f1` is at
/// most the same byte of the blurred `f2`.
pub proof fn lemma_blur_monotone(f1: Seq<u8>, f2: Seq<u8>, width: int, height: int, r: int)
    requires
        0 <= width <= usize::MAX,
        0 <= height <= usize::MAX,
        frame::frame_size(width, height) <= f1.len(),
        frame::frame_size(width, height) <= f2.len(),
        forall|i: int|
            0 <= i < frame::frame_size(width, height) && frame::channel(i) < 3 ==> #[trigger] f1[i]
                <= f2[i],
    ensures
        forall|i: int|
            0 <= i < frame::frame_size(width, height) && frame::channel(i) < 3 ==> #[trigger] blurred(
                f1,
                width,
                height,
                r,
            )[i] <= blurred(f2, width, height, r)[i],
{
    let n = frame::frame_size(width, height);
    let w = as_signed(width);
    let h = as_signed(height);
    assert forall|i: int| 0 <= i < n && frame::channel(i) < 3 implies #[trigger] blurred(
        f1,
        width,
        height,
        r,
    )[i] <= blurred(f2, width, height, r)[i] by {
        frame::lemma_index_coords(width, height, i);
        let x = frame::pixel_x(width, i);
        let y = frame::pixel_y(width, i);
        let c = frame::channel(i);
        let sx = as_signed(x);
        let sy = as_signed(y);
        let ys = window_start(sy, r);
        let ye = window_end(sy, r, h);
        let xs = window_start(sx, r);
        let xe = window_end(sx, r, w);
        let count = pixel_window_count(width, height, r, x, y);
        if count != 0 {
            assert(ys < ye && xs < xe) by (nonlinear_arith)
                requires
                    count == span(ys, ye) * span(xs, xe),
                    count != 0,
                    span(ys, ye) == (if ys < ye { ye - ys } else { 0 }),
                    span(xs, xe) == (if xs < xe { xe - xs } else { 0 }),
            ;
            assert forall|nx: int, ny: int| xs <= nx < xe && ys <= ny < ye implies #[trigger] f1[frame::sample_index(
                w,
                nx,
                ny,
                c,
            )] <= f2[frame::sample_index(w, nx, ny, c)] by {
                lemma_converted_position(width, height, nx, ny, c);
            }
            lemma_area_sum_le(f1, f2, w, ys, ye, xs, xe, c);
            lemma_window_sum_bound(f1, w, h, r, sx, sy, c);
            lemma_window_sum_bound(f2, w, h, r, sx, sy, c);
            let s1 = pixel_window_sum(f1, width, height, r, x, y, c);
            let s2 = pixel_window_sum(f2, width, height, r, x, y, c);
            assert(0 <= s1 / count <= s2 / count <= 255) by (nonlinear_arith)
                requires
                    0 <= s1 <= s2 <= 255 * count,
                    count > 0,
            ;
        }
    }
}

/// A pass keeps every colour byte within the range of the colour bytes it
/// starts from: an average lies between the smallest and the largest value.
pub proof fn lemma_blur_within_range(
    frame: Seq<u8>,
    width: int,
    height: int,
    r: int,
    lo: int,
    hi: int,
)
    requires
        0 <= width <= usize::MAX,
        0 <= height <= usize::MAX,
        frame::frame_size(width, height) <= frame.len(),
        forall|i: int|
            0 <= i < frame::frame_size(width, height) && frame::channel(i) < 3 ==> lo
                <= #[trigger] frame[i] <= hi,
    ensures
        forall|i: int|
            0 <= i < frame::frame_size(width, height) && frame::channel(i) < 3 ==> lo
                <= #[trigger] blurred(frame, width, height, r)[i] <= hi,
{
    let n = frame::frame_size(width, height);
    let w = as_signed(width);
    let h = as_signed(height);
    assert forall|i: int| 0 <= i < n && frame::channel(i) < 3 implies lo <= #[trigger] blurred(
        frame,
        width,
        height,
        r,
    )[i] <= hi by {
        frame::lemma_index_coords(width, height, i);
        let x = frame::pixel_x(width, i);
        let y = frame::pixel_y(width, i);
        let c = frame::channel(i);
        let sx = as_signed(x);
        let sy = as_signed(y);
        let ys = window_start(sy, r);
        let ye = window_end(sy, r, h);
        let xs = window_start(sx, r);
        let xe = window_end(sx, r, w);
        let count = pixel_window_count(width, height, r, x, y);
        if count != 0 {
            assert(ys < ye && xs < xe) by (nonlinear_arith)
                requires
                    count == span(ys, ye) * span(xs, xe),
                    count != 0,
                    span(ys, ye) == (if ys < ye { ye - ys } else { 0 }),
                    span(xs, xe) == (if xs < xe { xe - xs } else { 0 }),
            ;
            assert forall|nx: int, ny: int| xs <= nx < xe && ys <= ny < ye implies lo
                <= #[trigger] frame[frame::sample_index(w, nx, ny, c)] <= hi by {
                lemma_converted_position(width, height, nx, ny, c);
            }
            lemma_area_sum_between(frame, w, ys, ye, xs, xe, c, lo, hi);
            lemma_window_sum_bound(frame, w, h, r, sx, sy, c);
            let total = pixel_window_sum(frame, width, height, r, x, y, c);
            assert(count == (ye - ys) * (xe - xs));
            assert(lo <= total / count <= hi && 0 <= total / count <= 255) by (nonlinear_arith)
                requires
                    lo * count <= total <= hi * count,
                    0 <= total <= 255 * count,
                    count > 0,
            ;
        }
    }
}

/// Any number of passes keeps the order of colours between two frames.
pub proof fn lemma_blur_passes_monotone(
    f1: Seq<u8>,
    f2: Seq<u8>,
    width: int,
    height: int,
    r: int,
    k: nat,
)
    requires
        0 <= width <= usize::MAX,
        0 <= height <= usize::MAX,
        f1.len() == frame::frame_size(width, height),
        f2.len() == frame::frame_size(width, height),
        forall|i: int|
            0 <= i < frame::frame_size(width, height) && frame::channel(i) < 3 ==> #[trigger] f1[i]
                <= f2[i],
    ensures
        forall|i: int|
            0 <= i < frame::frame_size(width, height) && frame::channel(i) < 3 ==> #[trigger] blur_passes(
                f1,
                width,
                height,
                r,
                k,
            )[i] <= blur_passes(f2, width, height, r, k)[i],
    decreases k,
{
    if k > 0 {
        let k1 = (k - 1) as nat;
        lemma_blur_passes_monotone(f1, f2, width, height, r, k1);
        lemma_blur_passes_len(f1, width, height, r, k1);
        lemma_blur_passes_len(f2, width, height, r, k1);
        lemma_blur_monotone(
            blur_passes(f1, width, height, r, k1),
            blur_passes(f2, width, height, r, k1),
            width,
            height,
            r,
        );
    }
}

proof fn lemma_blur_passes_len(frame: Seq<u8>, width: int, height: int, r: int, k: nat)
    requires
        0 <= width,
        0 <= height,
        frame.len() == frame::frame_size(width, height),
    ensures
        blur_passes(frame, width, height, r, k).len() == frame::frame_size(width, height),
    decreases k,
{
    assert(frame::frame_size(width, height) >= 0) by (nonlinear_arith)
        requires
            0 <= width,
            0 <= height,
    ;
    if k > 0 {
        lemma_blur_passes_len(frame, width, height, r, (k - 1) as nat);
    }
}

/// For every radius up to `i32::MAX`, the pass works with the requested
/// radius itself.
pub proof fn lemma_window_radius_is_radius(radius: usize)
    requires
        radius <= i32::MAX,
    ensures
        window_radius(radius) == radius,
{
    lemma_as_signed(radius);
    assert((radius as int) as i32 == radius as i32);
}

/// The window around `center` with radius `r` on a side of `bound` pixels
/// holds exactly the positions inside the side at distance at most `r` from
/// `center`.
pub proof fn lemma_window_members(center: int, r: int, bound: int, p: int)
    ensures
        (window_start(center, r) <= p < window_end(center, r, bound)) <==> (0 <= p < bound
            && center - r <= p <= center + r),
{
}

/// A window of radius `r` around a pixel inside the frame, with `r` at
/// least 0, spans `2 * r + 1` positions along a side, fewer only where the
/// side ends.
pub proof fn lemma_window_span(center: int, r: int, bound: int)
    requires
        0 <= center < bound,
        0 <= r,
    ensures
        span(window_start(center, r), window_end(center, r, bound)) <= 2 * r + 1,
        r <= center && center + r < bound ==> span(
            window_start(center, r),
            window_end(center, r, bound),
        ) == 2 * r + 1,
{
}

/// The run of `k + 1` passes is one more pass over the result of the run of
/// `k` passes, and it completes exactly when the run of `k` passes completes
/// and that one more pass does.
pub proof fn lemma_one_more_pass(frame: Seq<u8>, width: int, height: int, radius: usize, k: nat)
    ensures
        blur_passes(frame, width, height, window_radius(radius), k + 1) == blurred(
            blur_passes(frame, width, height, window_radius(radius), k),
            width,
            height,
            window_radius(radius),
        ),
        passes_complete(frame, width, height, radius, k + 1) == (passes_complete(
            frame,
            width,
            height,
            radius,
            k,
        ) && pass_completes(
            blur_passes(frame, width, height, window_radius(radius), k),
            width,
            height,
            radius,
        )),
        blur_passes(frame, width, height, window_radius(radius), 0) == frame,
        passes_complete(frame, width, height, radius, 0),
{
    assert(((k + 1) as nat - 1) as nat == k);
}

/// A pass's 32-bit window arithmetic fits whenever a window row, a window
/// column and the number of pixels do: for a radius up to `i32::MAX` with
/// `width - 1 + radius` and `height - 1 + radius` at most `i32::MAX` and at
/// most 2^31 pixels, the pass runs.
pub proof fn lemma_geometry_fits(width: int, height: int, radius: usize)
    requires
        0 <= width,
        0 <= height,
        radius <= i32::MAX,
        width - 1 + radius <= i32::MAX,
        height - 1 + radius <= i32::MAX,
        width * height <= i32::MAX + 1,
    ensures
        pass_geometry_ok(width, height, radius),
{
    lemma_window_radius_is_radius(radius);
    if width > 0 && height > 0 {
        assert(width <= i32::MAX + 1 && height <= i32::MAX + 1) by (nonlinear_arith)
            requires
                width > 0,
                height > 0,
                width * height <= i32::MAX + 1,
        ;
        lemma_as_signed(width as usize);
        lemma_as_signed(height as usize);
        if width <= i32::MAX && height <= i32::MAX {
        } else {
            lemma_cast_bits(0x8000_0000u64);
            assert(as_signed(0x8000_0000) < 0);
        }
    }
}

/// Every run of passes over a frame of at most `u32::MAX / 255` pixels
/// completes when the window arithmetic fits (see `lemma_geometry_fits`):
/// `blur_frame` then returns `true`.
pub proof fn lemma_small_frame_passes_complete(
    frame: Seq<u8>,
    width: int,
    height: int,
    radius: usize,
    k: nat,
)
    requires
        0 <= width,
        0 <= height,
        radius <= i32::MAX,
        width - 1 + radius <= i32::MAX,
        height - 1 + radius <= i32::MAX,
        width * height <= u32::MAX / 255,
    ensures
        passes_complete(frame, width, height, radius, k),
    decreases k,
{
    if k > 0 {
        lemma_small_frame_passes_complete(frame, width, height, radius, (k - 1) as nat);
        lemma_geometry_fits(width, height, radius);
        assert(width <= usize::MAX && height <= usize::MAX) by (nonlinear_arith)
            requires
                0 <= width,
                0 <= height,
                width - 1 + radius <= i32::MAX,
                height - 1 + radius <= i32::MAX,
        ;
        lemma_small_frame_sums_fit(
            blur_passes(frame, width, height, window_radius(radius), (k - 1) as nat),
            width,
            height,
            window_radius(radius),
        );
    }
}

/// A pass never changes the alpha byte of a pixel.
pub proof fn lemma_blur_keeps_alpha(frame: Seq<u8>, width: int, height: int, r: int, x: int, y: int)
    requires
        0 <= x < width,
        0 <= y < height,
    ensures
        blurred(frame, width, height, r)[frame::sample_index(width, x, y, 3)]
            == frame[frame::sample_index(width, x, y, 3)],
{
    frame::lemma_pixel_in_frame(width, height, x, y);
    frame::lemma_sample_coords(width, x, y, 3);
}

/// A converted side that is positive is at most the side itself.
proof fn lemma_side_bound(n: int)
    requires
        0 <= n <= usize::MAX,
    ensures
        as_signed(n) > 0 ==> as_signed(n) <= n,
{
    lemma_as_signed(n as usize);
}

/// When the frame has at most `u32::MAX / 255` pixels, no window sum can
/// exceed `u32::MAX`.
pub proof fn lemma_small_frame_sums_fit(frame: Seq<u8>, width: int, height: int, r: int)
    requires
        0 <= width <= usize::MAX,
        0 <= height <= usize::MAX,
        width * height <= u32::MAX / 255,
    ensures
        window_sums_fit(frame, width, height, r),
{
    lemma_side_bound(width);
    lemma_side_bound(height);
    assert forall|x: int, y: int, c: int|
        0 <= x < width && 0 <= y < height && 0 <= c < 3 implies #[trigger] pixel_window_sum(
        frame,
        width,
        height,
        r,
        x,
        y,
        c,
    ) <= u32::MAX by {
        let w = as_signed(width);
        let h = as_signed(height);
        let sx = as_signed(x);
        let sy = as_signed(y);
        lemma_window_sum_bound(frame, w, h, r, sx, sy, c);
        let ys = window_start(sy, r);
        let ye = window_end(sy, r, h);
        let xs = window_start(sx, r);
        let xe = window_end(sx, r, w);
        assert(span(ys, ye) <= height && span(xs, xe) <= width);
        assert(255 * (span(ys, ye) * span(xs, xe)) <= u32::MAX) by (nonlinear_arith)
            requires
                0 <= span(ys, ye) <= height,
                0 <= span(xs, xe) <= width,
                width * height <= u32::MAX / 255,
        ;
    }
}

/// A pass with radius 0 averages every pixel with itself alone: the frame is
/// unchanged. (The sides are below 2^32: for longer sides the 32-bit
/// conversion can make a pixel read another one.)
pub proof fn lemma_blur_radius_zero(frame: Seq<u8>, width: int, height: int)
    requires
        sides_below_2_32(width, height),
        frame::frame_size(width, height) <= frame.len(),
    ensures
        blurred(frame, width, height, 0) == frame.subrange(0, frame::frame_size(width, height)),
{
    let n = frame::frame_size(width, height);
    let out = blurred(frame, width, height, 0);
    lemma_as_signed(width as usize);
    lemma_as_signed(height as usize);
    assert forall|i: int| 0 <= i < n implies out[i] == frame[i] by {
        frame::lemma_index_coords(width, height, i);
        let x = frame::pixel_x(width, i);
        let y = frame::pixel_y(width, i);
        let c = frame::channel(i);
        lemma_point_window(frame, width, height, x, y, c);
        if width <= i32::MAX && height <= i32::MAX {
            lemma_as_signed(x as usize);
            lemma_as_signed(y as usize);
        } else {
            lemma_no_window(width, height, 0, x, y);
        }
    }
    assert(out =~= frame.subrange(0, n));
}

/// A pass leaves a frame of one uniform colour unchanged, whatever the radius.
pub proof fn lemma_blur_uniform(frame: Seq<u8>, width: int, height: int, r: int)
    requires
        0 <= width <= usize::MAX,
        0 <= height <= usize::MAX,
        frame::frame_size(width, height) <= frame.len(),
        uniform(frame, width, height),
    ensures
        blurred(frame, width, height, r) == frame.subrange(0, frame::frame_size(width, height)),
{
    let n = frame::frame_size(width, height);
    let out = blurred(frame, width, height, r);
    let w = as_signed(width);
    let h = as_signed(height);
    lemma_side_bound(width);
    lemma_side_bound(height);
    assert forall|i: int| 0 <= i < n implies out[i] == frame[i] by {
        frame::lemma_index_coords(width, height, i);
        let x = frame::pixel_x(width, i);
        let y = frame::pixel_y(width, i);
        let c = frame::channel(i);
        let sx = as_signed(x);
        let sy = as_signed(y);
        let ys = window_start(sy, r);
        let ye = window_end(sy, r, h);
        let xs = window_start(sx, r);
        let xe = window_end(sx, r, w);
        let count = pixel_window_count(width, height, r, x, y);
        if c < 3 && count != 0 {
            assert(ys < ye && xs < xe) by (nonlinear_arith)
                requires
                    count == span(ys, ye) * span(xs, xe),
                    count != 0,
                    span(ys, ye) == (if ys < ye { ye - ys } else { 0 }),
                    span(xs, xe) == (if xs < xe { xe - xs } else { 0 }),
            ;
            assert(0 < w <= width && 0 < h <= height);
            let v = frame[c] as int;
            assert forall|nx: int, ny: int| xs <= nx < xe && ys <= ny < ye implies #[trigger] frame[frame::sample_index(
                w,
                nx,
                ny,
                c,
            )] == v by {
                let p = ny * w + nx;
                let j = frame::sample_index(w, nx, ny, c);
                assert(0 <= p < width * height) by (nonlinear_arith)
                    requires
                        p == ny * w + nx,
                        0 <= nx < w <= width,
                        0 <= ny < h <= height,
                ;
                assert(j == p * 4 + c);
                frame::lemma_index_coords(width, height, j);
                vstd::arithmetic::div_mod::lemma_fundamental_div_mod_converse(j, 4, p, c);
            }
            lemma_area_sum_const(frame, w, ys, ye, xs, xe, c, v);
            assert(count == (ye - ys) * (xe - xs));
            assert((v * count) / count == v) by (nonlinear_arith)
                requires
                    count > 0,
            ;
            assert(frame[frame::sample_index(width, x, y, c)] == v);
        }
    }
    assert(out =~= frame.subrange(0, n));
}

/// A pass leaves a one-pixel frame unchanged, whatever the radius.
pub proof fn lemma_blur_single_pixel(frame: Seq<u8>, r: int)
    requires
        4 <= frame.len(),
    ensures
        blurred(frame, 1, 1, r) == frame.subrange(0, 4),
{
    assert forall|x: int, y: int, c: int|
        0 <= x < 1 && 0 <= y < 1 && 0 <= c < 4 implies #[trigger] frame[frame::sample_index(
        1,
        x,
        y,
        c,
    )] == frame[c] by {}
    lemma_blur_uniform(frame, 1, 1, r);
}

/// Any number of passes leaves a frame of one uniform colour unchanged.
pub proof fn lemma_blur_passes_uniform(frame: Seq<u8>, width: int, height: int, r: int, k: nat)
    requires
        0 <= width <= usize::MAX,
        0 <= height <= usize::MAX,
        frame.len() == frame::frame_size(width, height),
        uniform(frame, width, height),
    ensures
        blur_passes(frame, width, height, r, k) == frame,
    decreases k,
{
    if k > 0 {
        lemma_blur_passes_uniform(frame, width, height, r, (k - 1) as nat);
        lemma_blur_uniform(frame, width, height, r);
        assert(frame.subrange(0, frame::frame_size(width, height)) =~= frame);
    }
}

/// Decides `pass_geometry_ok`.
fn pass_geometry_fits(width: usize, height: usize, radius: usize) -> (ok: bool)
    ensures
        ok == pass_geometry_ok(width as int, height as int, radius),
{
    let r = #[verifier::truncate] (radius as i32);
    if width == 0 || height == 0 {
        return true;
    }
    if r == i32::MIN {
        return false;
    }
    if r < 0 {
        return true;
    }
    let limit: usize = 0x7fff_ffff;
    if r > 0 {
        let ru = r as usize;
        if width > limit || height > limit {
            return false;
        }
        if ru > limit - (width - 1) || ru > limit - (height - 1) {
            return false;
        }
    }
    let w = #[verifier::truncate] (width as i32);
    let h = #[verifier::truncate] (height as i32);
    if w <= 0 || h <= 0 {
        return true;
    }
    proof {
        assert((w as u64) * (h as u64) <= 0x7fff_ffff * 0x7fff_ffff) by (nonlinear_arith)
            requires
                0 < w <= 0x7fff_ffff,
                0 < h <= 0x7fff_ffff,
        ;
    }
    (w as u64) * (h as u64) <= 0x8000_0000
}

/// With radius 0, where the pass reads the pixel at (`x`, `y`) from: the
/// position of its first byte when its converted coordinates lie inside the
/// converted frame, `None` otherwise.
fn point_source(width: usize, height: usize, x: usize, y: usize) -> (source: Option<usize>)
    requires
        x < width,
        y < height,
        frame::frame_size(width as int, height as int) <= usize::MAX,
        as_signed(width as int) <= 0 || as_signed(height as int) <= 0 || as_signed(width as int)
            * as_signed(height as int) <= i32::MAX + 1,
    ensures
        ({
            let w = as_signed(width as int);
            let h = as_signed(height as int);
            let sx = as_signed(x as int);
            let sy = as_signed(y as int);
            &&& source is Some <==> (0 <= sx < w && 0 <= sy < h)
            &&& source matches Some(i) ==> i == frame::sample_index(w, sx, sy, 0) && i + 4
                <= frame::frame_size(width as int, height as int)
        }),
{
    let w = #[verifier::truncate] (width as i32);
    let h = #[verifier::truncate] (height as i32);
    let sx = #[verifier::truncate] (x as i32);
    let sy = #[verifier::truncate] (y as i32);
    if 0 <= sy && sy < h && 0 <= sx && sx < w {
        proof {
            lemma_as_signed(width);
            lemma_as_signed(height);
            assert(0 <= sy * w + sx < w * h) by (nonlinear_arith)
                requires
                    0 <= sx < w,
                    0 <= sy < h,
            ;
            assert((sy * w + sx) * 4 + 4 <= width * height * 4) by (nonlinear_arith)
                requires
                    0 <= sy * w + sx < w * h,
                    0 < w <= width,
                    0 < h <= height,
            ;
        }
        let p = sy * w + sx;
        Some((p as usize) * 4)
    } else {
        None
    }
}

/// Sums of the red, green and blue channels over the window around
/// (`x`, `y`) and the number of pixels in it, or `None` as soon as a sum
/// exceeds `u32::MAX`.
fn window_totals(src: &[u8], width: usize, height: usize, radius: usize, x: usize, y: usize) -> (totals:
    Option<(u32, u32, u32, u32)>)
    requires
        pass_geometry_ok(width as int, height as int, radius),
        window_radius(radius) > 0,
        x < width,
        y < height,
        frame::frame_size(width as int, height as int) <= src@.len(),
    ensures
        ({
            let r = window_radius(radius);
            &&& totals is Some <==> (window_sum(src@, width as int, height as int, r, x as int, y as int, 0)
                <= u32::MAX && window_sum(src@, width as int, height as int, r, x as int, y as int, 1)
                <= u32::MAX && window_sum(src@, width as int, height as int, r, x as int, y as int, 2)
                <= u32::MAX)
            &&& totals matches Some((s0, s1, s2, count)) ==> {
                &&& s0 == window_sum(src@, width as int, height as int, r, x as int, y as int, 0)
                &&& s1 == window_sum(src@, width as int, height as int, r, x as int, y as int, 1)
                &&& s2 == window_sum(src@, width as int, height as int, r, x as int, y as int, 2)
                &&& count == window_count(width as int, height as int, r, x as int, y as int)
                &&& count > 0
            }
        }),
{
    let ghost r = window_radius(radius);
    let ghost w = width as int;
    let ghost h = height as int;
    let ghost fs = src@;
    proof {
        lemma_as_signed(width);
        lemma_as_signed(height);
    }
    let src_len = src.len();
    let ru = (#[verifier::truncate] (radius as i32)) as usize;
    let ys: usize = if y >= ru { y - ru } else { 0 };
    let ye: usize = if ru < height - 1 - y { y + ru + 1 } else { height };
    let xs: usize = if x >= ru { x - ru } else { 0 };
    let xe: usize = if ru < width - 1 - x { x + ru + 1 } else { width };
    assert(ys == window_start(y as int, r) && ye == window_end(y as int, r, h));
    assert(xs == window_start(x as int, r) && xe == window_end(x as int, r, w));
    assert((ye - ys) * (xe - xs) <= h * w) by (nonlinear_arith)
        requires
            0 <= ye - ys <= h,
            0 <= xe - xs <= w,
    ;
    let mut s0: u32 = 0;
    let mut s1: u32 = 0;
    let mut s2: u32 = 0;
    let mut count: u32 = 0;
    let mut ny = ys;
    assert(count == (ny - ys) * (xe - xs)) by (nonlinear_arith)
        requires
            count == 0,
            ny == ys,
    ;
    while ny < ye
        invariant
            ys <= ny <= ye <= height,
            xs < xe <= width,
            ys < ye,
            fs == src@,
            w == width,
            h == height,
            frame::frame_size(w, h) <= fs.len(),
            fs.len() == src_len,
            r == window_radius(radius),
            ys == window_start(y as int, r),
            ye == window_end(y as int, r, h),
            xs == window_start(x as int, r),
            xe == window_end(x as int, r, w),
            (ye - ys) * (xe - xs) <= h * w <= i32::MAX + 1,
            s0 == area_sum(fs, w, ys as int, ny as int, xs as int, xe as int, 0),
            s1 == area_sum(fs, w, ys as int, ny as int, xs as int, xe as int, 1),
            s2 == area_sum(fs, w, ys as int, ny as int, xs as int, xe as int, 2),
            count == (ny - ys) * (xe - xs),
        decreases ye - ny,
    {
        let mut nx = xs;
        while nx < xe
            invariant
                ys <= ny < ye <= height,
                xs <= nx <= xe <= width,
                fs == src@,
                w == width,
                h == height,
                frame::frame_size(w, h) <= fs.len(),
                fs.len() == src_len,
                r == window_radius(radius),
                ys == window_start(y as int, r),
                ye == window_end(y as int, r, h),
                xs == window_start(x as int, r),
                xe == window_end(x as int, r, w),
                (ye - ys) * (xe - xs) <= h * w <= i32::MAX + 1,
                s0 == area_sum(fs, w, ys as int, ny as int, xs as int, xe as int, 0) + row_sum(
                    fs,
                    w,
                    ny as int,
                    xs as int,
                    nx as int,
                    0,
                ),
                s1 == area_sum(fs, w, ys as int, ny as int, xs as int, xe as int, 1) + row_sum(
                    fs,
                    w,
                    ny as int,
                    xs as int,
                    nx as int,
                    1,
                ),
                s2 == area_sum(fs, w, ys as int, ny as int, xs as int, xe as int, 2) + row_sum(
                    fs,
                    w,
                    ny as int,
                    xs as int,
                    nx as int,
                    2,
                ),
                count == (ny - ys) * (xe - xs) + (nx - xs),
            decreases xe - nx,
        {
            proof {
                frame::lemma_pixel_in_frame(w, h, nx as int, ny as int);
                assert((ny - ys) * (xe - xs) + (nx - xs) < (ye - ys) * (xe - xs)) by (nonlinear_arith)
                    requires
                        ys <= ny < ye,
                        xs <= nx < xe,
                ;
            }
            let idx = (ny * width + nx) * 4;
            match s0.checked_add(src[idx] as u32) {
                Some(v) => s0 = v,
                None => {
                    proof {
                        lemma_partial_le_area(fs, w, ys as int, ye as int, xs as int, xe as int, ny as int, nx as int, 0);
                        assert(row_sum(fs, w, ny as int, xs as int, nx + 1, 0) == row_sum(fs, w, ny as int, xs as int, nx as int, 0) + fs[frame::sample_index(w, nx as int, ny as int, 0)]);
                        assert(window_sum(fs, w, h, r, x as int, y as int, 0) > u32::MAX);
                    }
                    return None;
                },
            }
            match s1.checked_add(src[idx + 1] as u32) {
                Some(v) => s1 = v,
                None => {
                    proof {
                        lemma_partial_le_area(fs, w, ys as int, ye as int, xs as int, xe as int, ny as int, nx as int, 1);
                        assert(row_sum(fs, w, ny as int, xs as int, nx + 1, 1) == row_sum(fs, w, ny as int, xs as int, nx as int, 1) + fs[frame::sample_index(w, nx as int, ny as int, 1)]);
                        assert(window_sum(fs, w, h, r, x as int, y as int, 1) > u32::MAX);
                    }
                    return None;
                },
            }
            match s2.checked_add(src[idx + 2] as u32) {
                Some(v) => s2 = v,
                None => {
                    proof {
                        lemma_partial_le_area(fs, w, ys as int, ye as int, xs as int, xe as int, ny as int, nx as int, 2);
                        assert(row_sum(fs, w, ny as int, xs as int, nx + 1, 2) == row_sum(fs, w, ny as int, xs as int, nx as int, 2) + fs[frame::sample_index(w, nx as int, ny as int, 2)]);
                        assert(window_sum(fs, w, h, r, x as int, y as int, 2) > u32::MAX);
                    }
                    return None;
                },
            }
            count = count + 1;
            nx = nx + 1;
        }
        proof {
            assert((ny - ys) * (xe - xs) + (xe - xs) == (ny + 1 - ys) * (xe - xs)) by (nonlinear_arith);
        }
        ny = ny + 1;
    }
    proof {
        assert(count > 0) by (nonlinear_arith)
            requires
                count == (ye - ys) * (xe - xs),
                ys < ye,
                xs < xe,
        ;
    }
    Some((s0, s1, s2, count))
}

/// One pass of the blur from `src` into `dst`, or `false` when the pass
/// cannot run: its window arithmetic leaves 32 bits, or a window sum exceeds
/// `u32::MAX`. Only the first `width * height * 4` bytes of `dst` are written.
fn try_blur_pass(src: &[u8], dst: &mut [u8], width: usize, height: usize, radius: usize) -> (ok:
    bool)
    requires
        frame::frame_size(width as int, height as int) <= src@.len(),
        frame::frame_size(width as int, height as int) <= old(dst)@.len(),
    ensures
        final(dst)@.len() == old(dst)@.len(),
        ok == pass_completes(src@, width as int, height as int, radius),
        ok ==> final(dst)@ == blurred(src@, width as int, height as int, window_radius(radius))
            + old(dst)@.skip(frame::frame_size(width as int, height as int)),
{
    let ghost w = width as int;
    let ghost h = height as int;
    let ghost n = frame::frame_size(w, h);
    let ghost r = window_radius(radius);
    let ghost fs = src@;
    let ghost out_frame = blurred(fs, w, h, r);
    let src_len = src.len();
    if !pass_geometry_fits(width, height, radius) {
        return false;
    }
    let r32 = #[verifier::truncate] (radius as i32);
    if r32 < 0 {
        // Every window is empty: each pixel is copied as it is.
        proof {
            assert(w * h <= w * h * 4) by (nonlinear_arith)
                requires
                    w >= 0,
                    h >= 0,
            ;
        }
        let len = width * height * 4;
        let mut i: usize = 0;
        while i < len
            invariant
                len == n,
                n == frame::frame_size(w, h),
                n <= fs.len(),
                fs == src@,
                r == window_radius(radius),
                r < 0,
                w == width,
                h == height,
                out_frame == blurred(fs, w, h, r),
                i <= len,
                dst@.len() == old(dst)@.len(),
                n <= dst@.len(),
                forall|j: int| 0 <= j < i ==> dst@[j] == out_frame[j],
                forall|j: int| n <= j < dst@.len() ==> dst@[j] == old(dst)@[j],
            decreases len - i,
        {
            proof {
                frame::lemma_index_coords(w, h, i as int);
            }
            dst[i] = src[i];
            i = i + 1;
        }
        proof {
            assert(dst@ =~= out_frame + old(dst)@.skip(n));
            assert forall|x: int, y: int, c: int|
                0 <= x < w && 0 <= y < h && 0 <= c < 3 implies #[trigger] window_sum(
                fs,
                w,
                h,
                r,
                x,
                y,
                c,
            ) <= u32::MAX by {}
        }
        return true;
    }
    let mut y: usize = 0;
    while y < height
        invariant
            pass_geometry_ok(w, h, radius),
            r == window_radius(radius),
            r >= 0,
            r32 as int == r,
            w == width,
            h == height,
            n == frame::frame_size(w, h),
            n <= fs.len(),
            fs == src@,
            fs.len() == src_len,
            out_frame == blurred(fs, w, h, r),
            y <= height,
            dst@.len() == old(dst)@.len(),
            n <= dst@.len(),
            forall|j: int| 0 <= j < y * w * 4 ==> dst@[j] == out_frame[j],
            forall|j: int| n <= j < dst@.len() ==> dst@[j] == old(dst)@[j],
            forall|xx: int, yy: int, c: int|
                0 <= xx < w && 0 <= yy < y && 0 <= c < 3 ==> #[trigger] pixel_window_sum(
                    fs,
                    w,
                    h,
                    r,
                    xx,
                    yy,
                    c,
                ) <= u32::MAX,
        decreases height - y,
    {
        let mut x: usize = 0;
        while x < width
            invariant
                pass_geometry_ok(w, h, radius),
                r == window_radius(radius),
                r >= 0,
                r32 as int == r,
                w == width,
                h == height,
                n == frame::frame_size(w, h),
                n <= fs.len(),
                fs == src@,
                fs.len() == src_len,
                out_frame == blurred(fs, w, h, r),
                y < height,
                x <= width,
                dst@.len() == old(dst)@.len(),
                n <= dst@.len(),
                forall|j: int| 0 <= j < (y * w + x) * 4 ==> dst@[j] == out_frame[j],
                forall|j: int| n <= j < dst@.len() ==> dst@[j] == old(dst)@[j],
                forall|xx: int, yy: int, c: int|
                    0 <= xx < w && 0 <= yy < y && 0 <= c < 3 ==> #[trigger] pixel_window_sum(
                        fs,
                        w,
                        h,
                        r,
                        xx,
                        yy,
                        c,
                    ) <= u32::MAX,
                forall|xx: int, c: int|
                    0 <= xx < x && 0 <= c < 3 ==> #[trigger] pixel_window_sum(
                        fs,
                        w,
                        h,
                        r,
                        xx,
                        y as int,
                        c,
                    ) <= u32::MAX,
            decreases width - x,
        {
            proof {
                frame::lemma_pixel_in_frame(w, h, x as int, y as int);
                frame::lemma_sample_coords(w, x as int, y as int, 0);
                frame::lemma_sample_coords(w, x as int, y as int, 1);
                frame::lemma_sample_coords(w, x as int, y as int, 2);
                frame::lemma_sample_coords(w, x as int, y as int, 3);
            }
            let out = (y * width + x) * 4;
            if r32 == 0 {
                proof {
                    frame::lemma_pixel_in_frame(w, h, x as int, y as int);
                    lemma_point_window(fs, w, h, x as int, y as int, 0);
                    lemma_point_window(fs, w, h, x as int, y as int, 1);
                    lemma_point_window(fs, w, h, x as int, y as int, 2);
                }
                match point_source(width, height, x, y) {
                    Some(i) => {
                        dst[out] = src[i];
                        dst[out + 1] = src[i + 1];
                        dst[out + 2] = src[i + 2];
                        dst[out + 3] = src[out + 3];
                    },
                    None => {
                        dst[out] = src[out];
                        dst[out + 1] = src[out + 1];
                        dst[out + 2] = src[out + 2];
                        dst[out + 3] = src[out + 3];
                    },
                }
            } else {
                proof {
                    lemma_as_signed(width);
                    lemma_as_signed(height);
                    lemma_plain_window(fs, w, h, r, x as int, y as int, 0);
                    lemma_plain_window(fs, w, h, r, x as int, y as int, 1);
                    lemma_plain_window(fs, w, h, r, x as int, y as int, 2);
                }
                let totals = window_totals(src, width, height, radius, x, y);
                match totals {
                    Some((s0, s1, s2, count)) => {
                        dst[out] = #[verifier::truncate] ((s0 / count) as u8);
                        dst[out + 1] = #[verifier::truncate] ((s1 / count) as u8);
                        dst[out + 2] = #[verifier::truncate] ((s2 / count) as u8);
                        dst[out + 3] = src[out + 3];
                    },
                    None => {
                        return false;
                    },
                }
            }
            x = x + 1;
        }
        proof {
            assert((y * w + w) * 4 == (y + 1) * w * 4) by (nonlinear_arith);
        }
        y = y + 1;
    }
    proof {
        assert(h * w * 4 == n) by (nonlinear_arith)
            requires
                n == w * h * 4,
        ;
        assert(dst@ =~= out_frame + old(dst)@.skip(n));
    }
    true
}

/// One pass of the box blur: for every pixel of the `width` x `height` frame
/// in `src`, writes to `dst` the average of each of the red, green and blue
/// channels over the window of radius `radius` around it, clipped to the
/// frame, and the pixel's own alpha byte. Bytes of `dst` past the frame are
/// left as they were.
pub fn blur_pass(src: &[u8], dst: &mut [u8], width: usize, height: usize, radius: usize)
    requires
        frame::frame_size(width as int, height as int) <= src@.len(),
        frame::frame_size(width as int, height as int) <= old(dst)@.len(),
        pass_completes(src@, width as int, height as int, radius),
    ensures
        final(dst)@ == blurred(src@, width as int, height as int, window_radius(radius))
            + old(dst)@.skip(frame::frame_size(width as int, height as int)),
{
    let ok = try_blur_pass(src, dst, width, height, radius);
}

/// Once a pass cannot run, no longer run of passes completes.
proof fn lemma_passes_stop(frame: Seq<u8>, width: int, height: int, radius: usize, k: nat, m: nat)
    requires
        k <= m,
        !passes_complete(frame, width, height, radius, k),
    ensures
        !passes_complete(frame, width, height, radius, m),
    decreases m - k,
{
    if k < m {
        lemma_passes_stop(frame, width, height, radius, k, (m - 1) as nat);
    }
}

/// Applies `params.iterations` blur passes with radius `params.radius` to the
/// `width` x `height` frame in `data`, through a scratch buffer of the same
/// size. Returns `false`, with `data` left in an unspecified state, when a
/// pass cannot run (see `pass_completes`).
pub fn blur_frame(data: &mut [u8], width: u32, height: u32, params: &BlurParams) -> (done: bool)
    requires
        old(data)@.len() == frame::frame_size(width as int, height as int),
    ensures
        final(data)@.len() == old(data)@.len(),
        done == passes_complete(
            old(data)@,
            width as int,
            height as int,
            params.radius as usize,
            params.iterations as nat,
        ),
        done ==> final(data)@ == blur_passes(
            old(data)@,
            width as int,
            height as int,
            window_radius(params.radius as usize),
            params.iterations as nat,
        ),
{
    let w = width as usize;
    let h = height as usize;
    let radius = params.radius as usize;
    let ghost r = window_radius(radius);
    let ghost start = data@;
    let len = data.len();
    let mut temp: Vec<u8> = vec![0u8; len];
    let mut k: u32 = 0;
    while k < params.iterations
        invariant
            k <= params.iterations,
            len == start.len(),
            len == frame::frame_size(w as int, h as int),
            r == window_radius(radius),
            radius == params.radius as usize,
            w == width,
            h == height,
            start == old(data)@,
            data@.len() == len,
            temp@.len() == len,
            passes_complete(start, w as int, h as int, radius, k as nat),
            data@ == blur_passes(start, w as int, h as int, r, k as nat),
        decreases params.iterations - k,
    {
        if !try_blur_pass(data, temp.as_mut_slice(), w, h, radius) {
            proof {
                lemma_passes_stop(start, w as int, h as int, radius, (k + 1) as nat, params.iterations as nat);
            }
            return false;
        }
        let mut i: usize = 0;
        while i < len
            invariant
                i <= len,
                data@.len() == len,
                temp@.len() == len,
                forall|j: int| 0 <= j < i ==> data@[j] == temp@[j],
            decreases len - i,
        {
            data[i] = temp[i];
            i = i + 1;
        }
        proof {
            assert(data@ =~= temp@);
            assert(temp@ =~= blur_passes(start, w as int, h as int, r, (k + 1) as nat));
        }
        k = k + 1;
    }
    true
}

} // verus!
