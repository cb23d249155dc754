//! Rasterised glyphs and the model of drawing one into a frame buffer.

use vstd::prelude::*;

use crate::frame::write_pixel;

verus! {

/// Placement of a rasterised glyph: the offset of its bitmap from the pen
/// position, the bitmap's size in pixels, and how far the pen advances
/// (whole pixels) after it.
#[derive(Clone, Copy, Debug, PartialEq, Eq)]
pub struct GlyphMetrics {
    pub xmin: i32,
    pub ymin: i32,
    pub width: usize,
    pub height: usize,
    pub advance: usize,
}

/// A rasterised glyph: one coverage byte per bitmap pixel, row by row from
/// the top-left corner.
pub struct CachedGlyph {
    pub bitmap: Vec<u8>,
    pub metrics: GlyphMetrics,
}

impl CachedGlyph {
    /// The bitmap holds (at least) one byte per pixel.
    pub open spec fn wf(&self) -> bool {
        self.bitmap@.len() >= self.metrics.width * self.metrics.height
    }

    /// The bitmap holds exactly one byte per pixel, as a rasteriser hands it
    /// out.
    pub open spec fn exact(&self) -> bool {
        self.bitmap@.len() == self.metrics.width * self.metrics.height
    }

    /// Coverage of bitmap pixel (`row`, `col`).
    pub open spec fn opacity(&self, row: int, col: int) -> u8 {
        self.bitmap@[row * self.metrics.width + col]
    }
}

/// The screen column of the bitmap's left edge for pen position `x`. The
/// pen position, bitmap row and column and bitmap height enter the placement
/// as `i32` values (so a value beyond `i32::MAX` wraps); the sums themselves
/// are exact.
pub open spec fn origin_x(g: CachedGlyph, x: usize) -> int {
    (x as i32) + g.metrics.xmin
}

/// The screen column of bitmap column `col`.
pub open spec fn target_x(g: CachedGlyph, x: usize, col: int) -> int {
    origin_x(g, x) + (col as i32)
}

/// The baseline lifted by the glyph's bottom offset.
pub open spec fn lifted_y(g: CachedGlyph, y: usize) -> int {
    (y as i32) - g.metrics.ymin
}

/// The screen row of the bitmap's top edge for baseline `y`.
pub open spec fn origin_y(g: CachedGlyph, y: usize) -> int {
    lifted_y(g, y) - (g.metrics.height as i32)
}

/// The screen row of bitmap row `row`.
pub open spec fn target_y(g: CachedGlyph, y: usize, row: int) -> int {
    origin_y(g, y) + (row as i32)
}

/// The screen pixel that bitmap pixel (`row`, `col`) paints, if it is visible
/// and lands on a screen of `width` x `height` pixels.
pub open spec fn glyph_target(
    g: CachedGlyph,
    x: usize,
    y: usize,
    width: usize,
    height: usize,
    row: int,
    col: int,
) -> Option<int> {
    let tx = target_x(g, x, col);
    let ty = target_y(g, y, row);
    if g.opacity(row, col) != 0 && 0 <= tx && tx < (width as isize) && 0 <= ty && ty < (
    height as isize) {
        Some(ty * width + tx)
    } else {
        None
    }
}

/// Every pixel the glyph paints lies wholly inside a frame of `len` bytes.
pub open spec fn blit_in_frame(
    g: CachedGlyph,
    x: usize,
    y: usize,
    width: usize,
    height: usize,
    len: int,
) -> bool {
    forall|row: int, col: int|
        0 <= row < g.metrics.height && 0 <= col < g.metrics.width && (#[trigger] glyph_target(
            g,
            x,
            y,
            width,
            height,
            row,
            col,
        )) is Some ==> 4 * glyph_target(g, x, y, width, height, row, col)->0 + 3 < len
}

/// The frame after painting the first `k` bitmap pixels (row by row) of the
/// glyph: a visible pixel that lands on the screen gets `color` and its
/// coverage as alpha.
pub open spec fn blit_upto(
    frame: Seq<u8>,
    g: CachedGlyph,
    x: usize,
    y: usize,
    width: usize,
    height: usize,
    color: Seq<u8>,
    k: int,
) -> Seq<u8>
    decreases k,
{
    if k <= 0 {
        frame
    } else {
        let prev = blit_upto(frame, g, x, y, width, height, color, k - 1);
        let gw = g.metrics.width as int;
        let row = (k - 1) / gw;
        let col = (k - 1) % gw;
        match glyph_target(g, x, y, width, height, row, col) {
            Some(p) => write_pixel(prev, p, color[0], color[1], color[2], g.opacity(row, col)),
            None => prev,
        }
    }
}

/// The frame after drawing the whole glyph with pen at `x` on baseline `y`.
pub open spec fn blit(
    frame: Seq<u8>,
    g: CachedGlyph,
    x: usize,
    y: usize,
    width: usize,
    height: usize,
    color: Seq<u8>,
) -> Seq<u8> {
    blit_upto(frame, g, x, y, width, height, color, g.metrics.width * g.metrics.height)
}

/// Bitmap pixel (`row`, `col`) of a `gw` x `gh` bitmap has row-major index
/// below `gw * gh`.
pub proof fn lemma_row_major_index(row: int, col: int, gw: int, gh: int)
    requires
        0 <= row < gh,
        0 <= col < gw,
    ensures
        0 <= row * gw + col < gw * gh,
        row * gw + col + 1 <= gw * gh,
        (row * gw + col) / gw == row,
        (row * gw + col) % gw == col,
{
    assert(0 <= row * gw + col < gw * gh) by (nonlinear_arith)
        requires
            0 <= row < gh,
            0 <= col < gw,
    ;
    crate::frame::lemma_pixel_coords(gw, row, col);
}

/// One more bitmap pixel: `blit_upto` at `k + 1` paints pixel `k` on top of
/// `blit_upto` at `k`.
pub proof fn lemma_blit_unfold(
    frame: Seq<u8>,
    g: CachedGlyph,
    x: usize,
    y: usize,
    width: usize,
    height: usize,
    color: Seq<u8>,
    row: int,
    col: int,
)
    requires
        0 <= row < g.metrics.height,
        0 <= col < g.metrics.width,
    ensures
        ({
            let k = row * g.metrics.width + col;
            let prev = blit_upto(frame, g, x, y, width, height, color, k);
            blit_upto(frame, g, x, y, width, height, color, k + 1) == match glyph_target(
                g,
                x,
                y,
                width,
                height,
                row,
                col,
            ) {
                Some(p) => write_pixel(prev, p, color[0], color[1], color[2], g.opacity(row, col)),
                None => prev,
            }
        }),
{
    lemma_row_major_index(row, col, g.metrics.width as int, g.metrics.height as int);
}

} // verus!
