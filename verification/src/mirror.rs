//! Mirroring of an RGBA8 frame: left to right, top to bottom, or both.

use crate::blur;
use crate::frame;
use vstd::prelude::*;

verus! {

/// Version of the plugin interface that the mirror filter implements.
pub const API_VERSION: u32 = 1;

/// Status reported when the frame was processed.
pub const STATUS_OK: i32 = 0;

/// Status reported when no pixel buffer was handed over.
pub const STATUS_NULL_BUFFER: i32 = 1;

/// Status reported when the frame's byte length does not fit in a `usize`.
pub const STATUS_SIZE_OVERFLOW: i32 = 2;

/// Reports the plugin interface version.
pub fn plugin_api_version() -> (version: u32)
    ensures
        version == API_VERSION,
{
    API_VERSION
}

/// Checks a request to mirror a `width` x `height` frame before its buffer
/// is touched: a missing buffer is refused first, then a frame whose byte
/// length does not fit in a `usize`; otherwise gives that byte length.
pub fn check_request(buffer_present: bool, width: u32, height: u32) -> (checked: Result<usize, i32>)
    ensures
        !buffer_present ==> checked == Err::<usize, i32>(STATUS_NULL_BUFFER),
        buffer_present && frame::frame_size(width as int, height as int) > usize::MAX ==> checked
            == Err::<usize, i32>(STATUS_SIZE_OVERFLOW),
        buffer_present && frame::frame_size(width as int, height as int) <= usize::MAX ==> (checked
            matches Ok(len) && len == frame::frame_size(width as int, height as int)),
{
    if !buffer_present {
        return Err(STATUS_NULL_BUFFER);
    }
    match frame::frame_len(width, height) {
        Some(len) => Ok(len),
        None => Err(STATUS_SIZE_OVERFLOW),
    }
}

/// Which mirrors to apply.
pub struct MirrorParams {
    /// Swap the left and right halves of each row.
    pub horizontal: bool,
    /// Swap the top and bottom halves of the frame.
    pub vertical: bool,
}

impl MirrorParams {
    /// The parameters used when none could be read: no mirroring.
    pub fn fallback() -> (params: MirrorParams)
        ensures
            !params.horizontal,
            !params.vertical,
    {
        MirrorParams { horizontal: false, vertical: false }
    }
}

/// Position, before a left-right mirror, of the byte that ends up at `i`.
pub open spec fn mirror_h_source(width: int, i: int) -> int {
    frame::sample_index(
        width,
        width - 1 - frame::pixel_x(width, i),
        frame::pixel_y(width, i),
        frame::channel(i),
    )
}

/// Position, before a top-bottom mirror, of the byte that ends up at `i`.
pub open spec fn mirror_v_source(width: int, height: int, i: int) -> int {
    frame::sample_index(
        width,
        frame::pixel_x(width, i),
        height - 1 - frame::pixel_y(width, i),
        frame::channel(i),
    )
}

/// The buffer after mirroring its `width` x `height` frame left to right;
/// bytes past the frame are kept.
pub open spec fn mirrored_horizontally(frame: Seq<u8>, width: int, height: int) -> Seq<u8> {
    Seq::new(
        frame.len(),
        |i: int|
            if i < frame::frame_size(width, height) {
                frame[mirror_h_source(width, i)]
            } else {
                frame[i]
            },
    )
}

/// The buffer after mirroring its `width` x `height` frame top to bottom;
/// bytes past the frame are kept.
pub open spec fn mirrored_vertically(frame: Seq<u8>, width: int, height: int) -> Seq<u8> {
    Seq::new(
        frame.len(),
        |i: int|
            if i < frame::frame_size(width, height) {
                frame[mirror_v_source(width, height, i)]
            } else {
                frame[i]
            },
    )
}

/// The buffer after the mirrors that `params` asks for: left to right first,
/// then top to bottom.
pub open spec fn mirrored(frame: Seq<u8>, width: int, height: int, params: MirrorParams) -> Seq<u8> {
    let after_h = if params.horizontal {
        mirrored_horizontally(frame, width, height)
    } else {
        frame
    };
    if params.vertical {
        mirrored_vertically(after_h, width, height)
    } else {
        after_h
    }
}

/// Mirrors the `width` x `height` frame at the start of `data` left to right:
/// in every row, the pixel at column `x` trades places with the pixel at
/// column `width - 1 - x`. Bytes past the frame are left as they were.
pub fn mirror_horizontal(data: &mut [u8], width: usize, height: usize)
    requires
        frame::frame_size(width as int, height as int) <= old(data)@.len(),
    ensures
        final(data)@ == mirrored_horizontally(old(data)@, width as int, height as int),
{
    let ghost w = width as int;
    let ghost h = height as int;
    let ghost n = frame::frame_size(w, h);
    let ghost orig = data@;
    let ghost target = mirrored_horizontally(orig, w, h);
    let len = data.len();
    let mut row: usize = 0;
    while row < height
        invariant
            row <= height,
            w == width,
            h == height,
            n == frame::frame_size(w, h),
            orig == old(data)@,
            target == mirrored_horizontally(orig, w, h),
            len == orig.len(),
            n <= len,
            data@.len() == len,
            forall|j: int| 0 <= j < row * w * 4 ==> data@[j] == target[j],
            forall|j: int| row * w * 4 <= j < len ==> data@[j] == orig[j],
        decreases height - row,
    {
        proof {
            assert(row * w * 4 + 4 * w <= n) by (nonlinear_arith)
                requires
                    0 <= row < h,
                    0 <= w,
                    n == w * h * 4,
            ;
        }
        let row_start = row * width * 4;
        let half = width / 2;
        let mut col: usize = 0;
        while col < half
            invariant
                row < height,
                w == width,
                h == height,
                n == frame::frame_size(w, h),
                orig == old(data)@,
                target == mirrored_horizontally(orig, w, h),
                len == orig.len(),
                data@.len() == len,
                row_start == row * w * 4,
                row_start + 4 * w <= n <= len,
                half == w / 2,
                col <= half,
                forall|j: int| 0 <= j < row_start ==> data@[j] == target[j],
                forall|j: int| row_start + 4 * w <= j < len ==> data@[j] == orig[j],
                forall|xx: int, c: int|
                    0 <= xx < w && 0 <= c < 4 ==> #[trigger] data@[frame::sample_index(
                        w,
                        xx,
                        row as int,
                        c,
                    )] == if xx < col || xx >= w - col {
                        orig[frame::sample_index(w, w - 1 - xx, row as int, c)]
                    } else {
                        orig[frame::sample_index(w, xx, row as int, c)]
                    },
            decreases half - col,
        {
            let left = col * 4;
            let right = (width - 1 - col) * 4;
            let mut i: usize = 0;
            while i < 4
                invariant
                    row < height,
                    w == width,
                    h == height,
                    orig == old(data)@,
                    len == orig.len(),
                    data@.len() == len,
                    row_start == row * w * 4,
                    row_start + 4 * w <= len,
                    half == w / 2,
                    col < half,
                    left == col * 4,
                    right == (w - 1 - col) * 4,
                    i <= 4,
                    forall|j: int| 0 <= j < row_start ==> data@[j] == target[j],
                    forall|j: int| row_start + 4 * w <= j < len ==> data@[j] == orig[j],
                    forall|xx: int, c: int|
                        0 <= xx < w && 0 <= c < 4 ==> #[trigger] data@[frame::sample_index(
                            w,
                            xx,
                            row as int,
                            c,
                        )] == if xx < col || xx >= w - col || ((xx == col || xx == w - 1 - col)
                            && c < i) {
                            orig[frame::sample_index(w, w - 1 - xx, row as int, c)]
                        } else {
                            orig[frame::sample_index(w, xx, row as int, c)]
                        },
                decreases 4 - i,
            {
                let a = row_start + left + i;
                let b = row_start + right + i;
                assert(a == frame::sample_index(w, col as int, row as int, i as int));
                assert(b == frame::sample_index(w, w - 1 - col, row as int, i as int));
                let tmp = data[a];
                data[a] = data[b];
                data[b] = tmp;
                i = i + 1;
            }
            col = col + 1;
        }
        proof {
            assert forall|j: int| row_start <= j < row_start + 4 * w implies data@[j] == target[j] by {
                let xx = (j - row_start) / 4;
                let c = (j - row_start) % 4;
                assert(j == frame::sample_index(w, xx, row as int, c));
                frame::lemma_sample_coords(w, xx, row as int, c);
            }
            assert((row + 1) * w * 4 == row * w * 4 + 4 * w) by (nonlinear_arith);
        }
        row = row + 1;
    }
    proof {
        assert(h * w * 4 == n) by (nonlinear_arith)
            requires
                n == w * h * 4,
        ;
        assert(data@ =~= target);
    }
}

/// Mirrors the `width` x `height` frame at the start of `data` top to bottom:
/// row `y` trades places with row `height - 1 - y`. Bytes past the frame are
/// left as they were.
pub fn mirror_vertical(data: &mut [u8], width: usize, height: usize)
    requires
        frame::frame_size(width as int, height as int) <= old(data)@.len(),
        frame::row_size(width as int) <= usize::MAX,
    ensures
        final(data)@ == mirrored_vertically(old(data)@, width as int, height as int),
{
    let ghost w = width as int;
    let ghost h = height as int;
    let ghost n = frame::frame_size(w, h);
    let ghost orig = data@;
    let ghost target = mirrored_vertically(orig, w, h);
    let len = data.len();
    let row_size = width * 4;
    let half = height / 2;
    proof {
        assert(h * row_size == n) by (nonlinear_arith)
            requires
                row_size == w * 4,
                n == w * h * 4,
        ;
    }
    let mut row: usize = 0;
    while row < half
        invariant
            w == width,
            h == height,
            n == frame::frame_size(w, h),
            orig == old(data)@,
            target == mirrored_vertically(orig, w, h),
            len == orig.len(),
            n <= len,
            data@.len() == len,
            row_size == w * 4,
            half == h / 2,
            row <= half,
            forall|j: int| 0 <= j < row * row_size ==> data@[j] == target[j],
            forall|j: int| (h - row) * row_size <= j < n ==> data@[j] == target[j],
            forall|j: int| row * row_size <= j < (h - row) * row_size ==> data@[j] == orig[j],
            forall|j: int| n <= j < len ==> data@[j] == orig[j],
        decreases half - row,
    {
        proof {
            assert(row * row_size + row_size <= (h - 1 - row) * row_size) by (nonlinear_arith)
                requires
                    0 <= row < half,
                    half == h / 2,
                    row_size >= 0,
            ;
            assert((h - 1 - row) * row_size + row_size == (h - row) * row_size) by (nonlinear_arith);
            assert((h - row) * row_size <= n) by (nonlinear_arith)
                requires
                    0 <= row,
                    row_size == w * 4,
                    n == w * h * 4,
                    w >= 0,
            ;
        }
        let top = row * row_size;
        let bottom = (height - 1 - row) * row_size;
        let mut k: usize = 0;
        while k < row_size
            invariant
                w == width,
                h == height,
                n == frame::frame_size(w, h),
                orig == old(data)@,
                target == mirrored_vertically(orig, w, h),
                len == orig.len(),
                n <= len,
                data@.len() == len,
                row_size == w * 4,
                half == h / 2,
                row < half,
                top == row * row_size,
                bottom == (h - 1 - row) * row_size,
                top + row_size <= bottom,
                bottom + row_size == (h - row) * row_size,
                bottom + row_size <= n,
                k <= row_size,
                forall|j: int| 0 <= j < top ==> data@[j] == target[j],
                forall|j: int| bottom + row_size <= j < n ==> data@[j] == target[j],
                forall|j: int| top + row_size <= j < bottom ==> data@[j] == orig[j],
                forall|j: int| n <= j < len ==> data@[j] == orig[j],
                forall|j: int| top <= j < top + k ==> data@[j] == orig[j + (bottom - top)],
                forall|j: int| bottom <= j < bottom + k ==> data@[j] == orig[j - (bottom - top)],
                forall|j: int| top + k <= j < top + row_size ==> data@[j] == orig[j],
                forall|j: int| bottom + k <= j < bottom + row_size ==> data@[j] == orig[j],
            decreases row_size - k,
        {
            let tmp = data[top + k];
            data[top + k] = data[bottom + k];
            data[bottom + k] = tmp;
            k = k + 1;
        }
        proof {
            assert forall|j: int| top <= j < top + row_size implies data@[j] == target[j] by {
                let xx = (j - top) / 4;
                let c = (j - top) % 4;
                assert(top == row * w * 4) by (nonlinear_arith)
                    requires
                        top == row * row_size,
                        row_size == w * 4,
                ;
                assert(bottom == (h - 1 - row) * w * 4) by (nonlinear_arith)
                    requires
                        bottom == (h - 1 - row) * row_size,
                        row_size == w * 4,
                ;
                assert(j == frame::sample_index(w, xx, row as int, c));
                frame::lemma_sample_coords(w, xx, row as int, c);
                assert(data@[j] == orig[bottom + (j - top)]);
            }
            assert forall|j: int| bottom <= j < bottom + row_size implies data@[j] == target[j] by {
                let xx = (j - bottom) / 4;
                let c = (j - bottom) % 4;
                assert(top == row * w * 4) by (nonlinear_arith)
                    requires
                        top == row * row_size,
                        row_size == w * 4,
                ;
                assert(bottom == (h - 1 - row) * w * 4) by (nonlinear_arith)
                    requires
                        bottom == (h - 1 - row) * row_size,
                        row_size == w * 4,
                ;
                assert(j == frame::sample_index(w, xx, h - 1 - row, c));
                frame::lemma_sample_coords(w, xx, h - 1 - row, c);
                assert(data@[j] == orig[top + (j - bottom)]);
            }
            assert((row + 1) * row_size == top + row_size) by (nonlinear_arith)
                requires
                    top == row * row_size,
            ;
        }
        row = row + 1;
    }
    proof {
        // The middle row of an odd-height frame stays in place.
        assert((h - half) * row_size <= n) by (nonlinear_arith)
            requires
                half == h / 2,
                row_size == w * 4,
                n == w * h * 4,
                w >= 0,
        ;
        if h % 2 == 1 {
            assert(h - half == half + 1);
            assert(half * row_size == half * w * 4 && (h - half) * row_size == half * row_size
                + row_size) by (nonlinear_arith)
                requires
                    h - half == half + 1,
                    row_size == w * 4,
            ;
            assert forall|j: int| half * row_size <= j < (h - half) * row_size implies data@[j]
                == target[j] by {
                let xx = (j - half * row_size) / 4;
                let c = (j - half * row_size) % 4;
                assert(j == frame::sample_index(w, xx, half as int, c));
                frame::lemma_sample_coords(w, xx, half as int, c);
            }
        } else {
            assert(h - half == half);
        }
        assert(data@ =~= target);
    }
}

/// Applies the mirrors that `params` asks for to the `width` x `height`
/// frame at the start of `data`: left to right first, then top to bottom.
pub fn mirror_frame(data: &mut [u8], width: u32, height: u32, params: &MirrorParams)
    requires
        frame::frame_size(width as int, height as int) <= old(data)@.len(),
        params.vertical ==> frame::row_size(width as int) <= usize::MAX,
    ensures
        final(data)@ == mirrored(old(data)@, width as int, height as int, *params),
{
    let w = width as usize;
    let h = height as usize;
    if params.horizontal {
        mirror_horizontal(data, w, h);
    }
    if params.vertical {
        mirror_vertical(data, w, h);
    }
}

/// Byte `i` of the frame and the byte it is mirrored from, left to right,
/// belong to pixels of the same row and channel at mirrored columns.
pub proof fn lemma_mirror_h_source(width: int, height: int, i: int)
    requires
        0 <= width,
        0 <= height,
        0 <= i < frame::frame_size(width, height),
    ensures
        0 <= mirror_h_source(width, i) < frame::frame_size(width, height),
        frame::pixel_x(width, mirror_h_source(width, i)) == width - 1 - frame::pixel_x(width, i),
        frame::pixel_y(width, mirror_h_source(width, i)) == frame::pixel_y(width, i),
        frame::channel(mirror_h_source(width, i)) == frame::channel(i),
{
    frame::lemma_index_coords(width, height, i);
    let x = frame::pixel_x(width, i);
    let y = frame::pixel_y(width, i);
    frame::lemma_pixel_in_frame(width, height, width - 1 - x, y);
    frame::lemma_sample_coords(width, width - 1 - x, y, frame::channel(i));
}

/// Byte `i` of the frame and the byte it is mirrored from, top to bottom,
/// belong to pixels of the same column and channel in mirrored rows.
pub proof fn lemma_mirror_v_source(width: int, height: int, i: int)
    requires
        0 <= width,
        0 <= height,
        0 <= i < frame::frame_size(width, height),
    ensures
        0 <= mirror_v_source(width, height, i) < frame::frame_size(width, height),
        frame::pixel_x(width, mirror_v_source(width, height, i)) == frame::pixel_x(width, i),
        frame::pixel_y(width, mirror_v_source(width, height, i)) == height - 1 - frame::pixel_y(
            width,
            i,
        ),
        frame::channel(mirror_v_source(width, height, i)) == frame::channel(i),
{
    frame::lemma_index_coords(width, height, i);
    let x = frame::pixel_x(width, i);
    let y = frame::pixel_y(width, i);
    frame::lemma_pixel_in_frame(width, height, x, height - 1 - y);
    frame::lemma_sample_coords(width, x, height - 1 - y, frame::channel(i));
}

/// Mirroring left to right twice gives back the original buffer.
pub proof fn lemma_mirror_horizontal_twice(frame: Seq<u8>, width: int, height: int)
    requires
        0 <= width,
        0 <= height,
        frame::frame_size(width, height) <= frame.len(),
    ensures
        mirrored_horizontally(mirrored_horizontally(frame, width, height), width, height) == frame,
{
    let once = mirrored_horizontally(frame, width, height);
    let twice = mirrored_horizontally(once, width, height);
    assert forall|i: int| 0 <= i < frame.len() implies twice[i] == frame[i] by {
        if i < frame::frame_size(width, height) {
            lemma_mirror_h_source(width, height, i);
            lemma_mirror_h_source(width, height, mirror_h_source(width, i));
            frame::lemma_index_coords(width, height, i);
        }
    }
    assert(twice =~= frame);
}

/// Mirroring top to bottom twice gives back the original buffer.
pub proof fn lemma_mirror_vertical_twice(frame: Seq<u8>, width: int, height: int)
    requires
        0 <= width,
        0 <= height,
        frame::frame_size(width, height) <= frame.len(),
    ensures
        mirrored_vertically(mirrored_vertically(frame, width, height), width, height) == frame,
{
    let once = mirrored_vertically(frame, width, height);
    let twice = mirrored_vertically(once, width, height);
    assert forall|i: int| 0 <= i < frame.len() implies twice[i] == frame[i] by {
        if i < frame::frame_size(width, height) {
            lemma_mirror_v_source(width, height, i);
            lemma_mirror_v_source(width, height, mirror_v_source(width, height, i));
            frame::lemma_index_coords(width, height, i);
        }
    }
    assert(twice =~= frame);
}

/// The two mirrors commute: left-right then top-bottom gives the same buffer
/// as top-bottom then left-right.
pub proof fn lemma_mirrors_commute(frame: Seq<u8>, width: int, height: int)
    requires
        0 <= width,
        0 <= height,
        frame::frame_size(width, height) <= frame.len(),
    ensures
        mirrored_vertically(mirrored_horizontally(frame, width, height), width, height)
            == mirrored_horizontally(mirrored_vertically(frame, width, height), width, height),
{
    let hv = mirrored_vertically(mirrored_horizontally(frame, width, height), width, height);
    let vh = mirrored_horizontally(mirrored_vertically(frame, width, height), width, height);
    assert forall|i: int| 0 <= i < frame.len() implies hv[i] == vh[i] by {
        if i < frame::frame_size(width, height) {
            lemma_mirror_v_source(width, height, i);
            lemma_mirror_h_source(width, height, i);
            lemma_mirror_h_source(width, height, mirror_v_source(width, height, i));
            lemma_mirror_v_source(width, height, mirror_h_source(width, i));
        }
    }
    assert(hv =~= vh);
}

/// Summing a row stretch from its first pixel on.
proof fn lemma_row_sum_front(frame: Seq<u8>, width: int, ny: int, lo: int, hi: int, c: int)
    requires
        lo < hi,
    ensures
        blur::row_sum(frame, width, ny, lo, hi, c) == frame[frame::sample_index(width, lo, ny, c)]
            + blur::row_sum(frame, width, ny, lo + 1, hi, c),
    decreases hi - lo,
{
    if lo + 1 < hi {
        lemma_row_sum_front(frame, width, ny, lo, hi - 1, c);
        assert(blur::row_sum(frame, width, ny, lo + 1, hi, c) == blur::row_sum(
            frame,
            width,
            ny,
            lo + 1,
            hi - 1,
            c,
        ) + frame[frame::sample_index(width, hi - 1, ny, c)]);
    } else {
        assert(blur::row_sum(frame, width, ny, lo, hi - 1, c) == 0);
        assert(blur::row_sum(frame, width, ny, lo + 1, hi, c) == 0);
    }
}

/// Summing an area from its first row on.
proof fn lemma_area_sum_front(
    frame: Seq<u8>,
    width: int,
    ylo: int,
    yhi: int,
    xlo: int,
    xhi: int,
    c: int,
)
    requires
        ylo < yhi,
    ensures
        blur::area_sum(frame, width, ylo, yhi, xlo, xhi, c) == blur::row_sum(
            frame,
            width,
            ylo,
            xlo,
            xhi,
            c,
        ) + blur::area_sum(frame, width, ylo + 1, yhi, xlo, xhi, c),
    decreases yhi - ylo,
{
    if ylo + 1 < yhi {
        lemma_area_sum_front(frame, width, ylo, yhi - 1, xlo, xhi, c);
        assert(blur::area_sum(frame, width, ylo + 1, yhi, xlo, xhi, c) == blur::area_sum(
            frame,
            width,
            ylo + 1,
            yhi - 1,
            xlo,
            xhi,
            c,
        ) + blur::row_sum(frame, width, yhi - 1, xlo, xhi, c));
    } else {
        assert(blur::area_sum(frame, width, ylo, yhi - 1, xlo, xhi, c) == 0);
        assert(blur::area_sum(frame, width, ylo + 1, yhi, xlo, xhi, c) == 0);
    }
}

/// The byte at channel `c` of the pixel at (`x`, `y`) of a frame mirrored
/// left to right comes from the pixel at (`width - 1 - x`, `y`).
proof fn lemma_mirrored_h_sample(frame: Seq<u8>, width: int, height: int, x: int, y: int, c: int)
    requires
        0 <= x < width,
        0 <= y < height,
        0 <= c < 4,
        frame::frame_size(width, height) <= frame.len(),
    ensures
        mirrored_horizontally(frame, width, height)[frame::sample_index(width, x, y, c)]
            == frame[frame::sample_index(width, width - 1 - x, y, c)],
{
    frame::lemma_pixel_in_frame(width, height, x, y);
    frame::lemma_sample_coords(width, x, y, c);
}

/// The byte at channel `c` of the pixel at (`x`, `y`) of a frame mirrored
/// top to bottom comes from the pixel at (`x`, `height - 1 - y`).
proof fn lemma_mirrored_v_sample(frame: Seq<u8>, width: int, height: int, x: int, y: int, c: int)
    requires
        0 <= x < width,
        0 <= y < height,
        0 <= c < 4,
        frame::frame_size(width, height) <= frame.len(),
    ensures
        mirrored_vertically(frame, width, height)[frame::sample_index(width, x, y, c)]
            == frame[frame::sample_index(width, x, height - 1 - y, c)],
{
    frame::lemma_pixel_in_frame(width, height, x, y);
    frame::lemma_sample_coords(width, x, y, c);
}

proof fn lemma_row_sum_h_mirrored(
    frame: Seq<u8>,
    width: int,
    height: int,
    ny: int,
    lo: int,
    hi: int,
    c: int,
)
    requires
        0 <= lo <= hi <= width,
        0 <= ny < height,
        0 <= c < 4,
        frame::frame_size(width, height) <= frame.len(),
    ensures
        blur::row_sum(mirrored_horizontally(frame, width, height), width, ny, lo, hi, c)
            == blur::row_sum(frame, width, ny, width - hi, width - lo, c),
    decreases hi - lo,
{
    if lo < hi {
        lemma_row_sum_h_mirrored(frame, width, height, ny, lo, hi - 1, c);
        lemma_row_sum_front(frame, width, ny, width - hi, width - lo, c);
        lemma_mirrored_h_sample(frame, width, height, hi - 1, ny, c);
    }
}

proof fn lemma_area_sum_h_mirrored(
    frame: Seq<u8>,
    width: int,
    height: int,
    ylo: int,
    yhi: int,
    xlo: int,
    xhi: int,
    c: int,
)
    requires
        0 <= ylo <= yhi <= height,
        0 <= xlo <= xhi <= width,
        0 <= c < 4,
        frame::frame_size(width, height) <= frame.len(),
    ensures
        blur::area_sum(mirrored_horizontally(frame, width, height), width, ylo, yhi, xlo, xhi, c)
            == blur::area_sum(frame, width, ylo, yhi, width - xhi, width - xlo, c),
    decreases yhi - ylo,
{
    if ylo < yhi {
        lemma_area_sum_h_mirrored(frame, width, height, ylo, yhi - 1, xlo, xhi, c);
        lemma_row_sum_h_mirrored(frame, width, height, yhi - 1, xlo, xhi, c);
    }
}

proof fn lemma_row_sum_v_mirrored(
    frame: Seq<u8>,
    width: int,
    height: int,
    ny: int,
    lo: int,
    hi: int,
    c: int,
)
    requires
        0 <= lo <= hi <= width,
        0 <= ny < height,
        0 <= c < 4,
        frame::frame_size(width, height) <= frame.len(),
    ensures
        blur::row_sum(mirrored_vertically(frame, width, height), width, ny, lo, hi, c)
            == blur::row_sum(frame, width, height - 1 - ny, lo, hi, c),
    decreases hi - lo,
{
    if lo < hi {
        lemma_row_sum_v_mirrored(frame, width, height, ny, lo, hi - 1, c);
        lemma_mirrored_v_sample(frame, width, height, hi - 1, ny, c);
    }
}

proof fn lemma_area_sum_v_mirrored(
    frame: Seq<u8>,
    width: int,
    height: int,
    ylo: int,
    yhi: int,
    xlo: int,
    xhi: int,
    c: int,
)
    requires
        0 <= ylo <= yhi <= height,
        0 <= xlo <= xhi <= width,
        0 <= c < 4,
        frame::frame_size(width, height) <= frame.len(),
    ensures
        blur::area_sum(mirrored_vertically(frame, width, height), width, ylo, yhi, xlo, xhi, c)
            == blur::area_sum(frame, width, height - yhi, height - ylo, xlo, xhi, c),
    decreases yhi - ylo,
{
    if ylo < yhi {
        lemma_area_sum_v_mirrored(frame, width, height, ylo, yhi - 1, xlo, xhi, c);
        lemma_row_sum_v_mirrored(frame, width, height, yhi - 1, xlo, xhi, c);
        lemma_area_sum_front(frame, width, height - yhi, height - ylo, xlo, xhi, c);
    }
}

/// Blurring and mirroring left to right can be done in either order: the
/// window of a pixel mirrors onto the window of its mirror image. (The sides
/// are below 2^32: for longer sides the pass's 32-bit conversion of
/// coordinates does not follow the mirror.)
pub proof fn lemma_blur_commutes_with_mirror_horizontal(
    frame: Seq<u8>,
    width: int,
    height: int,
    r: int,
)
    requires
        blur::sides_below_2_32(width, height),
        frame::frame_size(width, height) <= frame.len(),
    ensures
        blur::blurred(mirrored_horizontally(frame, width, height), width, height, r)
            == mirrored_horizontally(blur::blurred(frame, width, height, r), width, height),
{
    let n = frame::frame_size(width, height);
    let lhs = blur::blurred(mirrored_horizontally(frame, width, height), width, height, r);
    let rhs = mirrored_horizontally(blur::blurred(frame, width, height, r), width, height);
    assert forall|i: int| 0 <= i < n implies lhs[i] == rhs[i] by {
        frame::lemma_index_coords(width, height, i);
        lemma_mirror_h_source(width, height, i);
        let x = frame::pixel_x(width, i);
        let y = frame::pixel_y(width, i);
        let c = frame::channel(i);
        let mx = width - 1 - x;
        lemma_mirrored_h_sample(frame, width, height, x, y, c);
        blur::lemma_as_signed(width as usize);
        blur::lemma_as_signed(height as usize);
        if width <= i32::MAX && height <= i32::MAX {
            blur::lemma_plain_window(frame, width, height, r, x, y, c);
            blur::lemma_plain_window(frame, width, height, r, mx, y, c);
            blur::lemma_plain_window(mirrored_horizontally(frame, width, height), width, height, r, x, y, c);
        } else {
            blur::lemma_no_window(width, height, r, x, y);
            blur::lemma_no_window(width, height, r, mx, y);
        }
        assert(blur::window_start(mx, r) == width - blur::window_end(x, r, width));
        assert(blur::window_end(mx, r, width) == width - blur::window_start(x, r));
        let ys = blur::window_start(y, r);
        let ye = blur::window_end(y, r, height);
        let xs = blur::window_start(x, r);
        let xe = blur::window_end(x, r, width);
        assert(blur::window_count(width, height, r, mx, y) == blur::window_count(
            width,
            height,
            r,
            x,
            y,
        ));
        if c < 3 && blur::window_count(width, height, r, x, y) != 0 {
            assert(ys < ye && xs < xe) by (nonlinear_arith)
                requires
                    blur::span(ys, ye) * blur::span(xs, xe) != 0,
                    blur::span(ys, ye) == (if ys < ye { ye - ys } else { 0 }),
                    blur::span(xs, xe) == (if xs < xe { xe - xs } else { 0 }),
            ;
            lemma_area_sum_h_mirrored(frame, width, height, ys, ye, xs, xe, c);
        }
    }
    assert(lhs =~= rhs);
}

/// Blurring and mirroring top to bottom can be done in either order: the
/// window of a pixel mirrors onto the window of its mirror image. (The sides
/// are below 2^32: for longer sides the pass's 32-bit conversion of
/// coordinates does not follow the mirror.)
pub proof fn lemma_blur_commutes_with_mirror_vertical(
    frame: Seq<u8>,
    width: int,
    height: int,
    r: int,
)
    requires
        blur::sides_below_2_32(width, height),
        frame::frame_size(width, height) <= frame.len(),
    ensures
        blur::blurred(mirrored_vertically(frame, width, height), width, height, r)
            == mirrored_vertically(blur::blurred(frame, width, height, r), width, height),
{
    let n = frame::frame_size(width, height);
    let lhs = blur::blurred(mirrored_vertically(frame, width, height), width, height, r);
    let rhs = mirrored_vertically(blur::blurred(frame, width, height, r), width, height);
    assert forall|i: int| 0 <= i < n implies lhs[i] == rhs[i] by {
        frame::lemma_index_coords(width, height, i);
        lemma_mirror_v_source(width, height, i);
        let x = frame::pixel_x(width, i);
        let y = frame::pixel_y(width, i);
        let c = frame::channel(i);
        let my = height - 1 - y;
        lemma_mirrored_v_sample(frame, width, height, x, y, c);
        blur::lemma_as_signed(width as usize);
        blur::lemma_as_signed(height as usize);
        if width <= i32::MAX && height <= i32::MAX {
            blur::lemma_plain_window(frame, width, height, r, x, y, c);
            blur::lemma_plain_window(frame, width, height, r, x, my, c);
            blur::lemma_plain_window(mirrored_vertically(frame, width, height), width, height, r, x, y, c);
        } else {
            blur::lemma_no_window(width, height, r, x, y);
            blur::lemma_no_window(width, height, r, x, my);
        }
        assert(blur::window_start(my, r) == height - blur::window_end(y, r, height));
        assert(blur::window_end(my, r, height) == height - blur::window_start(y, r));
        let ys = blur::window_start(y, r);
        let ye = blur::window_end(y, r, height);
        let xs = blur::window_start(x, r);
        let xe = blur::window_end(x, r, width);
        assert(blur::window_count(width, height, r, x, my) == blur::window_count(
            width,
            height,
            r,
            x,
            y,
        ));
        if c < 3 && blur::window_count(width, height, r, x, y) != 0 {
            assert(ys < ye && xs < xe) by (nonlinear_arith)
                requires
                    blur::span(ys, ye) * blur::span(xs, xe) != 0,
                    blur::span(ys, ye) == (if ys < ye { ye - ys } else { 0 }),
                    blur::span(xs, xe) == (if xs < xe { xe - xs } else { 0 }),
            ;
            lemma_area_sum_v_mirrored(frame, width, height, ys, ye, xs, xe, c);
        }
    }
    assert(lhs =~= rhs);
}

} // verus!
