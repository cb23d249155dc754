//! Mathematical model of an RGBA frame buffer: four bytes per pixel, rows of
//! `width` pixels laid out one after another.

use vstd::prelude::*;

verus! {

/// The end (exclusive) of a rectangle's span along one axis, clipped to the
/// screen extent seen as a `u32`.
pub open spec fn span_end(start: u32, len: u32, limit: usize) -> int {
    let end = start + len;
    let lim = (limit as u32) as int;
    if end < lim {
        end
    } else {
        lim
    }
}

/// Pixel `p` of a screen `width` pixels wide lies in the clipped rectangle.
pub open spec fn rect_pixel(
    width: usize,
    height: usize,
    x: u32,
    y: u32,
    w: u32,
    h: u32,
    p: int,
) -> bool {
    &&& width > 0
    &&& y <= p / (width as int) < span_end(y, h, height)
    &&& x <= p % (width as int) < span_end(x, w, width)
}

/// Byte `i` of a frame of `len` bytes is painted by the rectangle: its pixel
/// lies in the clipped rectangle and the whole pixel fits in the frame.
pub open spec fn rect_covers(
    len: int,
    width: usize,
    height: usize,
    x: u32,
    y: u32,
    w: u32,
    h: u32,
    i: int,
) -> bool {
    &&& 0 <= i
    &&& 4 * (i / 4) + 3 < len
    &&& rect_pixel(width, height, x, y, w, h, i / 4)
}

/// The frame after filling the clipped rectangle with `color`.
pub open spec fn rect_fill(
    frame: Seq<u8>,
    width: usize,
    height: usize,
    x: u32,
    y: u32,
    w: u32,
    h: u32,
    color: Seq<u8>,
) -> Seq<u8> {
    Seq::new(
        frame.len(),
        |i: int|
            if rect_covers(frame.len() as int, width, height, x, y, w, h, i) {
                color[i % 4]
            } else {
                frame[i]
            },
    )
}

/// Every byte offset computed while filling the rectangle fits in a `usize`.
pub open spec fn rect_offsets_fit(width: usize, height: usize, x: u32, y: u32, w: u32, h: u32) -> bool {
    let end_r = span_end(y, h, height);
    let end_c = span_end(x, w, width);
    (y < end_r && x < end_c) ==> ((end_r - 1) * width + (end_c - 1)) * 4 + 3 <= usize::MAX
}

/// Pixel `row * width + col` with `col < width` has row `row` and column `col`.
pub proof fn lemma_pixel_coords(width: int, row: int, col: int)
    requires
        width > 0,
        row >= 0,
        0 <= col < width,
    ensures
        (row * width + col) / width == row,
        (row * width + col) % width == col,
{
    vstd::arithmetic::div_mod::lemma_fundamental_div_mod_converse(row * width + col, width, row, col);
}

/// Byte `4 * p + k` belongs to pixel `p`, channel `k`.
pub proof fn lemma_byte_coords(p: int, k: int)
    requires
        p >= 0,
        0 <= k < 4,
    ensures
        (4 * p + k) / 4 == p,
        (4 * p + k) % 4 == k,
{
    vstd::arithmetic::div_mod::lemma_fundamental_div_mod_converse(4 * p + k, 4, p, k);
}

/// Pixel `p` comes before row `r`, column `c` in row-major order.
pub open spec fn pixel_before(width: usize, p: int, r: int, c: int) -> bool {
    ||| p / (width as int) < r
    ||| (p / (width as int) == r && p % (width as int) < c)
}

/// The frame after the rectangle's pixels before (`r`, `c`) have been filled.
pub open spec fn rect_fill_upto(
    frame: Seq<u8>,
    width: usize,
    height: usize,
    x: u32,
    y: u32,
    w: u32,
    h: u32,
    color: Seq<u8>,
    r: int,
    c: int,
) -> Seq<u8> {
    Seq::new(
        frame.len(),
        |i: int|
            if rect_covers(frame.len() as int, width, height, x, y, w, h, i) && pixel_before(
                width,
                i / 4,
                r,
                c,
            ) {
                color[i % 4]
            } else {
                frame[i]
            },
    )
}

/// Writing the four bytes of pixel `p`.
pub open spec fn write_pixel(frame: Seq<u8>, p: int, c0: u8, c1: u8, c2: u8, c3: u8) -> Seq<u8> {
    frame.update(4 * p, c0).update(4 * p + 1, c1).update(4 * p + 2, c2).update(4 * p + 3, c3)
}

pub proof fn lemma_rect_offset_bound(width: int, row: int, col: int, rmax: int, cmax: int)
    requires
        width >= 0,
        0 <= row <= rmax,
        0 <= col <= cmax,
    ensures
        row * width + col <= rmax * width + cmax,
        0 <= row * width + col,
{
    vstd::arithmetic::mul::lemma_mul_inequality(row, rmax, width);
    vstd::arithmetic::mul::lemma_mul_nonnegative(row, width);
}

pub proof fn lemma_rect_start(
    frame: Seq<u8>,
    width: usize,
    height: usize,
    x: u32,
    y: u32,
    w: u32,
    h: u32,
    color: Seq<u8>,
)
    ensures
        frame == rect_fill_upto(frame, width, height, x, y, w, h, color, y as int, x as int),
{
    assert(frame =~= rect_fill_upto(frame, width, height, x, y, w, h, color, y as int, x as int));
}

pub proof fn lemma_rect_step(
    old_frame: Seq<u8>,
    before: Seq<u8>,
    after: Seq<u8>,
    width: usize,
    height: usize,
    x: u32,
    y: u32,
    w: u32,
    h: u32,
    color: Seq<u8>,
    row: int,
    col: int,
)
    requires
        color.len() == 4,
        before.len() == old_frame.len(),
        before == rect_fill_upto(old_frame, width, height, x, y, w, h, color, row, col),
        y <= row < span_end(y, h, height),
        x <= col < span_end(x, w, width),
        span_end(x, w, width) <= width,
        ({
            let p = row * width + col;
            &&& (4 * p + 3 < before.len() ==> after == write_pixel(
                before,
                p,
                color[0],
                color[1],
                color[2],
                color[3],
            ))
            &&& (!(4 * p + 3 < before.len()) ==> after == before)
        }),
    ensures
        after == rect_fill_upto(old_frame, width, height, x, y, w, h, color, row, col + 1),
{
    let wd = width as int;
    let p = row * wd + col;
    lemma_pixel_coords(wd, row, col);
    assert(p >= 0) by (nonlinear_arith)
        requires
            row >= 0,
            col >= 0,
            wd >= 0,
            p == row * wd + col,
    ;
    let target = rect_fill_upto(old_frame, width, height, x, y, w, h, color, row, col + 1);
    assert forall|i: int| 0 <= i < after.len() implies after[i] == target[i] by {
        let q = i / 4;
        if q == p {
            lemma_byte_coords(p, i % 4);
        } else {
            vstd::arithmetic::div_mod::lemma_fundamental_div_mod(q, wd);
            if q / wd == row && q % wd == col {
                assert(q == p) by (nonlinear_arith)
                    requires
                        q == wd * (q / wd) + q % wd,
                        q / wd == row,
                        q % wd == col,
                        p == row * wd + col,
                ;
            }
        }
    }
    assert(after =~= target);
}

pub proof fn lemma_rect_next_row(
    old_frame: Seq<u8>,
    width: usize,
    height: usize,
    x: u32,
    y: u32,
    w: u32,
    h: u32,
    color: Seq<u8>,
    row: int,
    col: int,
)
    requires
        col >= span_end(x, w, width),
    ensures
        rect_fill_upto(old_frame, width, height, x, y, w, h, color, row, col) == rect_fill_upto(
            old_frame,
            width,
            height,
            x,
            y,
            w,
            h,
            color,
            row + 1,
            x as int,
        ),
{
    assert(rect_fill_upto(old_frame, width, height, x, y, w, h, color, row, col) =~= rect_fill_upto(
        old_frame,
        width,
        height,
        x,
        y,
        w,
        h,
        color,
        row + 1,
        x as int,
    ));
}

pub proof fn lemma_rect_done(
    old_frame: Seq<u8>,
    width: usize,
    height: usize,
    x: u32,
    y: u32,
    w: u32,
    h: u32,
    color: Seq<u8>,
    row: int,
)
    requires
        row >= span_end(y, h, height),
    ensures
        rect_fill_upto(old_frame, width, height, x, y, w, h, color, row, x as int) == rect_fill(
            old_frame,
            width,
            height,
            x,
            y,
            w,
            h,
            color,
        ),
{
    assert(rect_fill_upto(old_frame, width, height, x, y, w, h, color, row, x as int) =~= rect_fill(
        old_frame,
        width,
        height,
        x,
        y,
        w,
        h,
        color,
    ));
}

} // verus!
