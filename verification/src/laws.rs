//! Properties that hold across calls: what drawing twice, looking a glyph up
//! twice, clicking a column twice or scrolling back and forth amounts to.

use vstd::prelude::*;

use crate::frame::{rect_covers, rect_fill};
use crate::glyph::{blit, blit_in_frame, blit_upto, glyph_target, CachedGlyph};
use crate::font_names::{face_names, full_name, full_name_decodes, utf16_ok};
use crate::processes::{
    dictionary_le, lemma_bytes_le_is_dictionary_order, name_bytes, sorted_by, ProcessGroup, SortBy,
};
use crate::view::{after_left_button, after_scroll, after_select, CursorCoord, ScrollDirection, ViewState};
use crate::world::{
    bitmaps_exact, evict, glyph_key, glyph_lookup, glyphs_drawn, text_upto, GLYPH_CACHE_LIMIT,
};
use fontdue::Font;

verus! {

/// Filling the same rectangle twice leaves the frame as filling it once.
pub proof fn law_rect_fill_idempotent(
    frame: Seq<u8>,
    width: usize,
    height: usize,
    x: u32,
    y: u32,
    w: u32,
    h: u32,
    color: Seq<u8>,
)
    ensures
        rect_fill(rect_fill(frame, width, height, x, y, w, h, color), width, height, x, y, w, h, color)
            == rect_fill(frame, width, height, x, y, w, h, color),
{
    let once = rect_fill(frame, width, height, x, y, w, h, color);
    assert(rect_fill(once, width, height, x, y, w, h, color) =~= once);
}

/// A rectangle with no width or no height, or whose corner lies right of or
/// below the screen, changes nothing.
pub proof fn law_empty_rect_changes_nothing(
    frame: Seq<u8>,
    width: usize,
    height: usize,
    x: u32,
    y: u32,
    w: u32,
    h: u32,
    color: Seq<u8>,
)
    requires
        w == 0 || h == 0 || x >= width || y >= height,
    ensures
        rect_fill(frame, width, height, x, y, w, h, color) == frame,
{
    assert forall|i: int| 0 <= i < frame.len() implies !rect_covers(
        frame.len() as int,
        width,
        height,
        x,
        y,
        w,
        h,
        i,
    ) by {}
    assert(rect_fill(frame, width, height, x, y, w, h, color) =~= frame);
}

/// Painting a glyph changes a byte only where one of the glyph's visible
/// pixels lands.
pub proof fn law_blit_changes_only_targets(
    frame: Seq<u8>,
    g: CachedGlyph,
    x: usize,
    y: usize,
    width: usize,
    height: usize,
    color: Seq<u8>,
    i: int,
)
    requires
        0 <= i < frame.len(),
        blit_in_frame(g, x, y, width, height, frame.len() as int),
        forall|row: int, col: int|
            0 <= row < g.metrics.height && 0 <= col < g.metrics.width ==> #[trigger] glyph_target(
                g,
                x,
                y,
                width,
                height,
                row,
                col,
            ) != Some(i / 4),
    ensures
        blit(frame, g, x, y, width, height, color).len() == frame.len(),
        blit(frame, g, x, y, width, height, color)[i] == frame[i],
{
    lemma_blit_upto_keeps(frame, g, x, y, width, height, color, i, g.metrics.width * g.metrics.height);
}

proof fn lemma_blit_upto_keeps(
    frame: Seq<u8>,
    g: CachedGlyph,
    x: usize,
    y: usize,
    width: usize,
    height: usize,
    color: Seq<u8>,
    i: int,
    k: int,
)
    requires
        0 <= i < frame.len(),
        blit_in_frame(g, x, y, width, height, frame.len() as int),
        k <= g.metrics.width * g.metrics.height,
        forall|row: int, col: int|
            0 <= row < g.metrics.height && 0 <= col < g.metrics.width ==> #[trigger] glyph_target(
                g,
                x,
                y,
                width,
                height,
                row,
                col,
            ) != Some(i / 4),
    ensures
        blit_upto(frame, g, x, y, width, height, color, k).len() == frame.len(),
        blit_upto(frame, g, x, y, width, height, color, k)[i] == frame[i],
    decreases k,
{
    if k > 0 {
        lemma_blit_upto_keeps(frame, g, x, y, width, height, color, i, k - 1);
        let gw = g.metrics.width as int;
        let gh = g.metrics.height as int;
        let row = (k - 1) / gw;
        let col = (k - 1) % gw;
        assert(gw > 0) by (nonlinear_arith)
            requires
                0 < k <= gw * gh,
                gw >= 0,
                gh >= 0,
        ;
        assert(0 <= row < gh) by (nonlinear_arith)
            requires
                0 < k <= gw * gh,
                gw > 0,
                row == (k - 1) / gw,
        ;
        assert(0 <= col < gw);
        let t = glyph_target(g, x, y, width, height, row, col);
        if t is Some {
            let p = t->0;
            assert(p != i / 4);
            assert(4 * p + 3 < frame.len());
            assert(p >= 0);
        }
    }
}

/// A glyph whose bitmap is fully transparent leaves the frame as it was.
pub proof fn law_transparent_glyph_changes_nothing(
    frame: Seq<u8>,
    g: CachedGlyph,
    x: usize,
    y: usize,
    width: usize,
    height: usize,
    color: Seq<u8>,
)
    requires
        g.wf(),
        forall|k: int| 0 <= k < g.bitmap@.len() ==> g.bitmap@[k] == 0,
    ensures
        blit(frame, g, x, y, width, height, color) == frame,
{
    assert forall|row: int, col: int|
        0 <= row < g.metrics.height && 0 <= col < g.metrics.width implies (#[trigger] glyph_target(
            g,
            x,
            y,
            width,
            height,
            row,
            col,
        )) is None by {
        crate::glyph::lemma_row_major_index(row, col, g.metrics.width as int, g.metrics.height as int);
        assert(g.opacity(row, col) == 0);
    }
    lemma_no_targets(frame, g, x, y, width, height, color, g.metrics.width * g.metrics.height);
}

proof fn lemma_no_targets(
    frame: Seq<u8>,
    g: CachedGlyph,
    x: usize,
    y: usize,
    width: usize,
    height: usize,
    color: Seq<u8>,
    k: int,
)
    requires
        k <= g.metrics.width * g.metrics.height,
        forall|row: int, col: int|
            0 <= row < g.metrics.height && 0 <= col < g.metrics.width ==> (#[trigger] glyph_target(
                g,
                x,
                y,
                width,
                height,
                row,
                col,
            )) is None,
    ensures
        blit_upto(frame, g, x, y, width, height, color, k) == frame,
    decreases k,
{
    if k > 0 {
        lemma_no_targets(frame, g, x, y, width, height, color, k - 1);
        let gw = g.metrics.width as int;
        let gh = g.metrics.height as int;
        assert(gw > 0) by (nonlinear_arith)
            requires
                0 < k <= gw * gh,
                gw >= 0,
                gh >= 0,
        ;
        assert(0 <= (k - 1) / gw < gh) by (nonlinear_arith)
            requires
                0 < k <= gw * gh,
                gw > 0,
        ;
    }
}

/// Drawing an empty text leaves the frame as it was.
pub proof fn law_empty_text_draws_nothing(
    frame: Seq<u8>,
    gs: Seq<CachedGlyph>,
    start_x: usize,
    y: usize,
    width: usize,
    height: usize,
    color: Seq<u8>,
)
    requires
        glyphs_drawn(Seq::<char>::empty(), gs, start_x, width),
    ensures
        text_upto(frame, gs, start_x, y, width, height, color, gs.len() as int) == frame,
{
}

/// Looking the same character and size up again, before the cache has
/// grown past its limit, gives back the glyph the first lookup produced and
/// leaves the cache unchanged: the rasteriser is not asked again.
pub proof fn law_second_lookup_hits<F: Fn(&Font, char) -> CachedGlyph>(
    c0: Map<u64, CachedGlyph>,
    c1: Map<u64, CachedGlyph>,
    c2: Map<u64, CachedGlyph>,
    font: Font,
    rasterize: F,
    character: char,
    size_px: u32,
    g1: CachedGlyph,
    g2: CachedGlyph,
)
    requires
        glyph_lookup(c0, font, rasterize, character, size_px, g1, c1),
        glyph_lookup(c1, font, rasterize, character, size_px, g2, c2),
        c1.len() <= GLYPH_CACHE_LIMIT,
    ensures
        g2 == g1,
        c2 == c1,
        c1.contains_key(glyph_key(character, size_px)),
{
}

/// The cache never holds more than one glyph past its limit.
pub proof fn law_cache_stays_bounded<F: Fn(&Font, char) -> CachedGlyph>(
    before: Map<u64, CachedGlyph>,
    after: Map<u64, CachedGlyph>,
    font: Font,
    rasterize: F,
    character: char,
    size_px: u32,
    g: CachedGlyph,
)
    requires
        before.dom().finite(),
        glyph_lookup(before, font, rasterize, character, size_px, g, after),
    ensures
        after.len() <= GLYPH_CACHE_LIMIT + 1,
{
    let base = evict(before);
    assert(base.dom().finite());
    if !base.contains_key(glyph_key(character, size_px)) {
        assert(base.insert(glyph_key(character, size_px), g).dom() =~= base.dom().insert(
            glyph_key(character, size_px),
        ));
    }
}

/// Clicking the title of the column the table is ordered by twice
/// restores the view.
pub proof fn law_select_twice_restores(s: ViewState, column: SortBy)
    requires
        s.sort_by == column,
    ensures
        after_select(after_select(s, column), column) == s,
{
}

/// Clicking the title of a column other than the current one orders by it,
/// largest first; nothing else changes.
pub proof fn law_select_new_column_descends(s: ViewState, column: SortBy)
    requires
        s.sort_by != column,
    ensures
        after_select(s, column).sort_by == column,
        !after_select(s, column).sort_ascending,
        after_select(s, column).scroll_offset == s.scroll_offset,
        after_select(s, column).is_dragging == s.is_dragging,
{
}

/// A turn of the wheel down and then up returns to the same place.
pub proof fn law_scroll_down_up_restores(s: ViewState)
    requires
        s.scroll_offset < usize::MAX,
    ensures
        after_scroll(after_scroll(s, ScrollDirection::Down), ScrollDirection::Up) == s,
{
}

/// Painting a glyph keeps the frame's length.
pub proof fn lemma_blit_upto_len(
    frame: Seq<u8>,
    g: CachedGlyph,
    x: usize,
    y: usize,
    width: usize,
    height: usize,
    color: Seq<u8>,
    k: int,
)
    requires
        blit_in_frame(g, x, y, width, height, frame.len() as int),
        k <= g.metrics.width * g.metrics.height,
    ensures
        blit_upto(frame, g, x, y, width, height, color, k).len() == frame.len(),
    decreases k,
{
    if k > 0 {
        lemma_blit_upto_len(frame, g, x, y, width, height, color, k - 1);
        let gw = g.metrics.width as int;
        let gh = g.metrics.height as int;
        assert(gw > 0) by (nonlinear_arith)
            requires
                0 < k <= gw * gh,
                gw >= 0,
                gh >= 0,
        ;
        assert(0 <= (k - 1) / gw < gh) by (nonlinear_arith)
            requires
                0 < k <= gw * gh,
                gw > 0,
        ;
        let t = glyph_target(g, x, y, width, height, (k - 1) / gw, (k - 1) % gw);
        if t is Some {
            assert(t->0 >= 0);
        }
    }
}

/// Two bitmap pixels of a glyph whose size fits an `i32` never land on the
/// same screen pixel.
pub proof fn lemma_targets_distinct(
    g: CachedGlyph,
    x: usize,
    y: usize,
    width: usize,
    height: usize,
    r0: int,
    c0: int,
    r1: int,
    c1: int,
)
    requires
        g.metrics.width <= i32::MAX,
        g.metrics.height <= i32::MAX,
        0 <= r0 < g.metrics.height,
        0 <= r1 < g.metrics.height,
        0 <= c0 < g.metrics.width,
        0 <= c1 < g.metrics.width,
        glyph_target(g, x, y, width, height, r0, c0) is Some,
        glyph_target(g, x, y, width, height, r0, c0) == glyph_target(g, x, y, width, height, r1, c1),
    ensures
        r0 == r1,
        c0 == c1,
{
    let tx0 = crate::glyph::target_x(g, x, c0);
    let ty0 = crate::glyph::target_y(g, y, r0);
    let tx1 = crate::glyph::target_x(g, x, c1);
    let ty1 = crate::glyph::target_y(g, y, r1);
    let p = ty0 * width + tx0;
    assert(tx0 < width && tx1 < width);
    vstd::arithmetic::div_mod::lemma_fundamental_div_mod_converse(p, width as int, ty0, tx0);
    vstd::arithmetic::div_mod::lemma_fundamental_div_mod_converse(p, width as int, ty1, tx1);
    assert((c0 as i32) == c0 && (c1 as i32) == c1);
    assert((r0 as i32) == r0 && (r1 as i32) == r1);
}

proof fn lemma_blit_upto_paints(
    frame: Seq<u8>,
    g: CachedGlyph,
    x: usize,
    y: usize,
    width: usize,
    height: usize,
    color: Seq<u8>,
    row: int,
    col: int,
    k: int,
)
    requires
        g.metrics.width <= i32::MAX,
        g.metrics.height <= i32::MAX,
        blit_in_frame(g, x, y, width, height, frame.len() as int),
        0 <= row < g.metrics.height,
        0 <= col < g.metrics.width,
        row * g.metrics.width + col < k <= g.metrics.width * g.metrics.height,
        glyph_target(g, x, y, width, height, row, col) is Some,
    ensures
        ({
            let p = glyph_target(g, x, y, width, height, row, col)->0;
            let after = blit_upto(frame, g, x, y, width, height, color, k);
            &&& after[4 * p] == color[0]
            &&& after[4 * p + 1] == color[1]
            &&& after[4 * p + 2] == color[2]
            &&& after[4 * p + 3] == g.opacity(row, col)
        }),
    decreases k,
{
    let gw = g.metrics.width as int;
    let gh = g.metrics.height as int;
    let k0 = row * gw + col;
    let p = glyph_target(g, x, y, width, height, row, col)->0;
    assert(p >= 0);
    assert(4 * p + 3 < frame.len());
    crate::glyph::lemma_row_major_index(row, col, gw, gh);
    lemma_blit_upto_len(frame, g, x, y, width, height, color, k - 1);
    if k - 1 == k0 {
    } else {
        lemma_blit_upto_paints(frame, g, x, y, width, height, color, row, col, k - 1);
        assert(gw > 0);
        assert(0 <= (k - 1) / gw < gh) by (nonlinear_arith)
            requires
                0 < k <= gw * gh,
                gw > 0,
        ;
        let r1 = (k - 1) / gw;
        let c1 = (k - 1) % gw;
        let t = glyph_target(g, x, y, width, height, r1, c1);
        if t is Some {
            if t->0 == p {
                lemma_targets_distinct(g, x, y, width, height, row, col, r1, c1);
                vstd::arithmetic::div_mod::lemma_fundamental_div_mod(k - 1, gw);
                assert(k - 1 == k0) by (nonlinear_arith)
                    requires
                        k - 1 == gw * r1 + c1,
                        r1 == row,
                        c1 == col,
                        k0 == row * gw + col,
                ;
            }
            assert(t->0 >= 0);
            assert(4 * t->0 + 3 < frame.len());
        }
    }
}

/// When the glyph's size fits an `i32`, every visible bitmap pixel that
/// lands on the screen leaves its screen pixel with `color` and the pixel's
/// coverage as alpha.
pub proof fn law_blit_paints_visible_pixels(
    frame: Seq<u8>,
    g: CachedGlyph,
    x: usize,
    y: usize,
    width: usize,
    height: usize,
    color: Seq<u8>,
    row: int,
    col: int,
)
    requires
        g.metrics.width <= i32::MAX,
        g.metrics.height <= i32::MAX,
        blit_in_frame(g, x, y, width, height, frame.len() as int),
        0 <= row < g.metrics.height,
        0 <= col < g.metrics.width,
        glyph_target(g, x, y, width, height, row, col) is Some,
    ensures
        ({
            let p = glyph_target(g, x, y, width, height, row, col)->0;
            let after = blit(frame, g, x, y, width, height, color);
            &&& after[4 * p] == color[0]
            &&& after[4 * p + 1] == color[1]
            &&& after[4 * p + 2] == color[2]
            &&& after[4 * p + 3] == g.opacity(row, col)
        }),
{
    crate::glyph::lemma_row_major_index(row, col, g.metrics.width as int, g.metrics.height as int);
    lemma_blit_upto_paints(
        frame,
        g,
        x,
        y,
        width,
        height,
        color,
        row,
        col,
        g.metrics.width * g.metrics.height,
    );
}

/// Screen pixel `q` is painted by one of the first `k` bitmap pixels.
pub open spec fn painted_by(
    g: CachedGlyph,
    x: usize,
    y: usize,
    width: usize,
    height: usize,
    k: int,
    q: int,
) -> bool
    decreases k,
{
    if k <= 0 {
        false
    } else {
        let gw = g.metrics.width as int;
        glyph_target(g, x, y, width, height, (k - 1) / gw, (k - 1) % gw) == Some(q) || painted_by(
            g,
            x,
            y,
            width,
            height,
            k - 1,
            q,
        )
    }
}

proof fn lemma_blit_upto_agree(
    f: Seq<u8>,
    h: Seq<u8>,
    g: CachedGlyph,
    x: usize,
    y: usize,
    width: usize,
    height: usize,
    color: Seq<u8>,
    k: int,
)
    requires
        f.len() == h.len(),
        blit_in_frame(g, x, y, width, height, f.len() as int),
        k <= g.metrics.width * g.metrics.height,
    ensures
        blit_upto(f, g, x, y, width, height, color, k).len() == f.len(),
        forall|i: int|
            #![trigger blit_upto(f, g, x, y, width, height, color, k)[i]]
            0 <= i < f.len() ==> {
                &&& painted_by(g, x, y, width, height, k, i / 4) ==> blit_upto(
                    f,
                    g,
                    x,
                    y,
                    width,
                    height,
                    color,
                    k,
                )[i] == blit_upto(h, g, x, y, width, height, color, k)[i]
                &&& !painted_by(g, x, y, width, height, k, i / 4) ==> blit_upto(
                    f,
                    g,
                    x,
                    y,
                    width,
                    height,
                    color,
                    k,
                )[i] == f[i]
            },
    decreases k,
{
    lemma_blit_upto_len(f, g, x, y, width, height, color, k);
    lemma_blit_upto_len(h, g, x, y, width, height, color, k);
    if k > 0 {
        lemma_blit_upto_agree(f, h, g, x, y, width, height, color, k - 1);
        lemma_blit_upto_len(f, g, x, y, width, height, color, k - 1);
        lemma_blit_upto_len(h, g, x, y, width, height, color, k - 1);
        let gw = g.metrics.width as int;
        let gh = g.metrics.height as int;
        assert(gw > 0) by (nonlinear_arith)
            requires
                0 < k <= gw * gh,
                gw >= 0,
                gh >= 0,
        ;
        assert(0 <= (k - 1) / gw < gh) by (nonlinear_arith)
            requires
                0 < k <= gw * gh,
                gw > 0,
        ;
        let t = glyph_target(g, x, y, width, height, (k - 1) / gw, (k - 1) % gw);
        let fk = blit_upto(f, g, x, y, width, height, color, k);
        let hk = blit_upto(h, g, x, y, width, height, color, k);
        let fp = blit_upto(f, g, x, y, width, height, color, k - 1);
        let hp = blit_upto(h, g, x, y, width, height, color, k - 1);
        if t is Some {
            assert(t->0 >= 0);
            assert(4 * t->0 + 3 < f.len());
        }
        assert forall|i: int| 0 <= i < f.len() implies {
            &&& painted_by(g, x, y, width, height, k, i / 4) ==> fk[i] == hk[i]
            &&& !painted_by(g, x, y, width, height, k, i / 4) ==> fk[i] == f[i]
        } by {
            let q = i / 4;
            assert(painted_by(g, x, y, width, height, k - 1, q) ==> fp[i] == hp[i]);
            assert(!painted_by(g, x, y, width, height, k - 1, q) ==> fp[i] == f[i]);
            assert(painted_by(g, x, y, width, height, k, q) == (t == Some(q) || painted_by(
                g,
                x,
                y,
                width,
                height,
                k - 1,
                q,
            )));
            if t is Some {
                let p = t->0;
                if q == p {
                    assert(4 * p <= i < 4 * p + 4);
                    assert(fk[i] == hk[i]);
                } else {
                    assert(fk[i] == fp[i]);
                    assert(hk[i] == hp[i]);
                }
            } else {
                assert(fk == fp);
                assert(hk == hp);
            }
        }
    }
}

/// Drawing the same glyph twice at the same place leaves the frame as
/// drawing it once: painted pixels are overwritten, not blended.
pub proof fn law_blit_idempotent(
    frame: Seq<u8>,
    g: CachedGlyph,
    x: usize,
    y: usize,
    width: usize,
    height: usize,
    color: Seq<u8>,
)
    requires
        blit_in_frame(g, x, y, width, height, frame.len() as int),
    ensures
        blit(blit(frame, g, x, y, width, height, color), g, x, y, width, height, color) == blit(
            frame,
            g,
            x,
            y,
            width,
            height,
            color,
        ),
{
    let n = g.metrics.width * g.metrics.height;
    let once = blit(frame, g, x, y, width, height, color);
    lemma_blit_upto_len(frame, g, x, y, width, height, color, n);
    lemma_blit_upto_agree(once, frame, g, x, y, width, height, color, n);
    assert(blit(once, g, x, y, width, height, color) =~= once);
}

/// A lookup keeps every cached glyph's bitmap whole and yields a whole
/// bitmap, provided the cache's glyphs and the rasteriser's results are whole.
pub proof fn law_lookup_keeps_bitmaps_whole<F: Fn(&Font, char) -> CachedGlyph>(
    before: Map<u64, CachedGlyph>,
    after: Map<u64, CachedGlyph>,
    font: Font,
    rasterize: F,
    character: char,
    size_px: u32,
    g: CachedGlyph,
)
    requires
        glyph_lookup(before, font, rasterize, character, size_px, g, after),
        forall|k: u64| before.contains_key(k) ==> (#[trigger] before[k]).wf(),
        forall|r: CachedGlyph| call_ensures(rasterize, (&font, character), r) ==> r.wf(),
    ensures
        g.wf(),
        forall|k: u64| after.contains_key(k) ==> (#[trigger] after[k]).wf(),
{
    let key = glyph_key(character, size_px);
    let base = evict(before);
    if base.contains_key(key) {
        assert(before[key].wf());
    }
    assert forall|k: u64| after.contains_key(k) implies (#[trigger] after[k]).wf() by {
        if k != key {
            assert(before[k].wf());
        }
    }
}

/// A lookup keeps every bitmap exactly one byte per pixel: when the cache
/// holds only such glyphs and the rasteriser makes only such glyphs for the
/// character, the glyph handed out and every glyph left in the cache are
/// such glyphs too.
pub proof fn law_lookup_keeps_bitmaps_exact<F: Fn(&Font, char) -> CachedGlyph>(
    before: Map<u64, CachedGlyph>,
    after: Map<u64, CachedGlyph>,
    font: Font,
    rasterize: F,
    character: char,
    size_px: u32,
    g: CachedGlyph,
)
    requires
        glyph_lookup(before, font, rasterize, character, size_px, g, after),
        bitmaps_exact(before),
        forall|r: CachedGlyph| call_ensures(rasterize, (&font, character), r) ==> r.exact(),
    ensures
        g.exact(),
        bitmaps_exact(after),
{
    let key = glyph_key(character, size_px);
    let base = evict(before);
    if base.contains_key(key) {
        assert(before[key].exact());
    }
    assert forall|k: u64| after.contains_key(k) implies (#[trigger] after[k]).exact() by {
        if k != key {
            assert(before[k].exact());
        }
    }
}

/// Rows sorted by a column are ordered by that column's own field: parent
/// ids for `PPID`, ids for `PID`, memory for `RAM`, CPU shares for `CPU`, and
/// names in dictionary order of their bytes for `Name`. Ascending, no row's
/// field exceeds that of a later row; descending, no row's field is below it.
pub proof fn law_sorted_rows_follow_the_column(rows: Seq<ProcessGroup>, by: SortBy, ascending: bool)
    requires
        sorted_by(rows, by, ascending),
    ensures
        forall|i: int, j: int|
            #![trigger rows[i], rows[j]]
            0 <= i < j < rows.len() ==> {
                let a = if ascending { rows[i] } else { rows[j] };
                let b = if ascending { rows[j] } else { rows[i] };
                &&& by == SortBy::PPID ==> a.ppid <= b.ppid
                &&& by == SortBy::PID ==> a.pid <= b.pid
                &&& by == SortBy::RAM ==> a.memory <= b.memory
                &&& by == SortBy::CPU ==> a.cpu <= b.cpu
                &&& by == SortBy::Name ==> dictionary_le(name_bytes(a), name_bytes(b))
            },
{
    assert forall|i: int, j: int| #![trigger rows[i], rows[j]] 0 <= i < j < rows.len() implies {
        let a = if ascending { rows[i] } else { rows[j] };
        let b = if ascending { rows[j] } else { rows[i] };
        &&& by == SortBy::PPID ==> a.ppid <= b.ppid
        &&& by == SortBy::PID ==> a.pid <= b.pid
        &&& by == SortBy::RAM ==> a.memory <= b.memory
        &&& by == SortBy::CPU ==> a.cpu <= b.cpu
        &&& by == SortBy::Name ==> dictionary_le(name_bytes(a), name_bytes(b))
    } by {
        let a = if ascending { rows[i] } else { rows[j] };
        let b = if ascending { rows[j] } else { rows[i] };
        lemma_bytes_le_is_dictionary_order(name_bytes(a), name_bytes(b));
    }
}

/// Distinct characters or sizes have distinct cache keys: a key names one
/// character at one pixel size.
pub proof fn law_glyph_key_is_injective(c1: char, s1: u32, c2: char, s2: u32)
    requires
        glyph_key(c1, s1) == glyph_key(c2, s2),
    ensures
        c1 == c2,
        s1 == s2,
{
    let a1 = (c1 as u32) as int;
    let a2 = (c2 as u32) as int;
    assert(a1 <= 0x10FFFF && a2 <= 0x10FFFF);
    assert(0 <= a1 * 0x1_0000_0000 + s1 as int <= 0x10FFFF * 0x1_0000_0000 + 0xFFFF_FFFF) by (nonlinear_arith)
        requires
            0 <= a1 <= 0x10FFFF,
            0 <= s1 <= 0xFFFF_FFFF,
    ;
    assert(0 <= a2 * 0x1_0000_0000 + s2 as int <= 0x10FFFF * 0x1_0000_0000 + 0xFFFF_FFFF) by (nonlinear_arith)
        requires
            0 <= a2 <= 0x10FFFF,
            0 <= s2 <= 0xFFFF_FFFF,
    ;
    assert(a1 * 0x1_0000_0000 + s1 as int == a2 * 0x1_0000_0000 + s2 as int);
    assert(a1 == a2 && s1 as int == s2 as int) by (nonlinear_arith)
        requires
            a1 * 0x1_0000_0000 + s1 as int == a2 * 0x1_0000_0000 + s2 as int,
            0 <= s1 <= 0xFFFF_FFFF,
            0 <= s2 <= 0xFFFF_FFFF,
            0 <= a1,
            0 <= a2,
    ;
}

/// From an empty cache, looking up one character at one size and then a
/// different character or size makes the second lookup rasterise its own
/// character and keeps both glyphs, under their own keys.
pub proof fn law_second_lookup_of_another_glyph_rasterises<F: Fn(&Font, char) -> CachedGlyph>(
    mid: Map<u64, CachedGlyph>,
    after: Map<u64, CachedGlyph>,
    font: Font,
    rasterize: F,
    c1: char,
    s1: u32,
    g1: CachedGlyph,
    c2: char,
    s2: u32,
    g2: CachedGlyph,
)
    requires
        glyph_lookup(Map::empty(), font, rasterize, c1, s1, g1, mid),
        glyph_lookup(mid, font, rasterize, c2, s2, g2, after),
        c1 != c2 || s1 != s2,
    ensures
        call_ensures(rasterize, (&font, c1), g1),
        call_ensures(rasterize, (&font, c2), g2),
        after.len() == 2,
        after[glyph_key(c1, s1)] == g1,
        after[glyph_key(c2, s2)] == g2,
{
    let k1 = glyph_key(c1, s1);
    let k2 = glyph_key(c2, s2);
    assert(Map::<u64, CachedGlyph>::empty().len() == 0);
    assert(evict(Map::<u64, CachedGlyph>::empty()) == Map::<u64, CachedGlyph>::empty());
    assert(mid == Map::<u64, CachedGlyph>::empty().insert(k1, g1));
    assert(mid.dom() =~= set![k1]);
    assert(mid.len() == 1);
    if k1 == k2 {
        law_glyph_key_is_injective(c1, s1, c2, s2);
    }
    assert(evict(mid) == mid);
    assert(!mid.contains_key(k2));
    assert(after.dom() =~= set![k1].insert(k2));
    assert(set![k1].insert(k2).len() == 2) by {
        assert(set![k1].insert(k2) =~= set![k2].insert(k1));
    }
}

/// Releasing the left button only ends a drag: the column, the direction
/// and the scroll position stay as they were. Pressing it never scrolls and
/// never starts or ends a drag by itself.
pub proof fn law_left_button_keeps_the_scroll_position(
    s: ViewState,
    pressed: bool,
    x: CursorCoord,
    y: CursorCoord,
)
    ensures
        after_left_button(s, pressed, x, y).scroll_offset == s.scroll_offset,
        !pressed ==> {
            let t = after_left_button(s, pressed, x, y);
            &&& !t.is_dragging
            &&& t.sort_by == s.sort_by
            &&& t.sort_ascending == s.sort_ascending
        },
        pressed ==> after_left_button(s, pressed, x, y).is_dragging == s.is_dragging,
{
}

/// The full name is taken from the first record with name id 4 whose
/// encoding is Unicode; records in other encodings are passed over. There is
/// none exactly when no record is a Unicode full name.
pub proof fn law_full_name_is_the_first_unicode_full_name(names: Seq<(u16, bool, Seq<u8>)>)
    ensures
        full_name(names) is None <==> forall|i: int| 0 <= i < names.len() ==> !(#[trigger] names[i].0 == 4 && names[i].1),
        forall|i: int|
            0 <= i < names.len() && #[trigger] names[i].0 == 4 && names[i].1 && (forall|j: int|
                0 <= j < i ==> !(#[trigger] names[j].0 == 4 && names[j].1)) ==> full_name(names) == Some(names[i].2),
        full_name(names) is Some ==> exists|i: int|
            0 <= i < names.len() && #[trigger] names[i].0 == 4 && names[i].1 && full_name(names) == Some(names[i].2) && (
            forall|j: int| 0 <= j < i ==> !(#[trigger] names[j].0 == 4 && names[j].1)),
    decreases names.len(),
{
    if names.len() > 0 {
        let rest = names.drop_first();
        law_full_name_is_the_first_unicode_full_name(rest);
        assert forall|i: int| 0 < i < names.len() implies #[trigger] names[i] == rest[i - 1] by {}
        if names[0].0 == 4 && names[0].1 {
            assert(names[0].0 == 4 && names[0].1 && full_name(names) == Some(names[0].2));
        } else {
            assert forall|i: int|
                0 <= i < names.len() && #[trigger] names[i].0 == 4 && names[i].1 && (forall|j: int|
                    0 <= j < i ==> !(#[trigger] names[j].0 == 4 && names[j].1)) implies full_name(names) == Some(names[i].2) by {
                assert(i > 0);
                assert(rest[i - 1] == names[i]);
                assert forall|j: int| 0 <= j < i - 1 implies !(#[trigger] rest[j].0 == 4 && rest[j].1) by {
                    assert(rest[j] == names[j + 1]);
                }
            }
            if full_name(names) is None {
                assert forall|i: int| 0 <= i < names.len() implies !(#[trigger] names[i].0 == 4 && names[i].1) by {
                    if i > 0 {
                        assert(rest[i - 1] == names[i]);
                    }
                }
            } else {
                let i = choose|i: int|
                    0 <= i < rest.len() && #[trigger] rest[i].0 == 4 && rest[i].1 && full_name(rest) == Some(rest[i].2) && (
                    forall|j: int| 0 <= j < i ==> !(#[trigger] rest[j].0 == 4 && rest[j].1));
                assert(names[i + 1] == rest[i]);
                assert forall|j: int| 0 <= j < i + 1 implies !(#[trigger] names[j].0 == 4 && names[j].1) by {
                    if j > 0 {
                        assert(names[j] == rest[j - 1]);
                    }
                }
                assert(names[i + 1].0 == 4 && names[i + 1].1 && full_name(names) == Some(names[i + 1].2));
            }
        }
    }
}

/// Whether the font loader can decode a font's full name depends on the
/// first Unicode full-name record alone: a face that parses passes exactly
/// when that record, if there is one, is well-formed UTF-16, whatever
/// records in other encodings it holds.
pub proof fn law_only_the_unicode_full_name_is_checked(data: Seq<u8>)
    ensures
        full_name_decodes(data) <==> (face_names(data) matches Some(names) ==> forall|i: int|
            0 <= i < names.len() && #[trigger] names[i].0 == 4 && names[i].1 && (forall|j: int|
                0 <= j < i ==> !(#[trigger] names[j].0 == 4 && names[j].1)) ==> utf16_ok(names[i].2)),
{
    if face_names(data) is Some {
        let names = face_names(data)->0;
        law_full_name_is_the_first_unicode_full_name(names);
    }
}

/// Where a glyph's pixels land. With the pen at column `x` on baseline row
/// `y`, bitmap pixel (`row`, `col`) belongs at screen column
/// `x + xmin + col` and screen row `y - ymin - height + row`, whatever the
/// signs of the offsets (a negative `ymin` puts a descender below the
/// baseline). A visible pixel that lands on the screen leaves that screen
/// pixel with `color` and its coverage as alpha; one that lands off the
/// screen paints nothing. Stated where the positions and sizes fit an `i32`
/// and the screen's sides an `isize`.
pub proof fn law_glyph_pixels_land_by_their_offsets(
    frame: Seq<u8>,
    g: CachedGlyph,
    x: usize,
    y: usize,
    width: usize,
    height: usize,
    color: Seq<u8>,
    row: int,
    col: int,
)
    requires
        x <= i32::MAX,
        y <= i32::MAX,
        g.metrics.width <= i32::MAX,
        g.metrics.height <= i32::MAX,
        width <= isize::MAX,
        height <= isize::MAX,
        blit_in_frame(g, x, y, width, height, frame.len() as int),
        0 <= row < g.metrics.height,
        0 <= col < g.metrics.width,
        g.bitmap@[row * g.metrics.width + col] != 0,
    ensures
        ({
            let tx = x + g.metrics.xmin + col;
            let ty = y - g.metrics.ymin - g.metrics.height + row;
            let p = ty * width + tx;
            let after = blit(frame, g, x, y, width, height, color);
            if 0 <= tx < width && 0 <= ty < height {
                &&& glyph_target(g, x, y, width, height, row, col) == Some(p)
                &&& after[4 * p] == color[0]
                &&& after[4 * p + 1] == color[1]
                &&& after[4 * p + 2] == color[2]
                &&& after[4 * p + 3] == g.bitmap@[row * g.metrics.width + col]
            } else {
                glyph_target(g, x, y, width, height, row, col) is None
            }
        }),
{
    let tx = x + g.metrics.xmin + col;
    let ty = y - g.metrics.ymin - g.metrics.height + row;
    assert((x as i32) as int == x as int);
    assert((y as i32) as int == y as int);
    assert((col as i32) as int == col);
    assert((row as i32) as int == row);
    assert((g.metrics.height as i32) as int == g.metrics.height as int);
    assert((width as isize) as int == width as int);
    assert((height as isize) as int == height as int);
    assert(crate::glyph::target_x(g, x, col) == tx);
    assert(crate::glyph::target_y(g, y, row) == ty);
    if 0 <= tx < width && 0 <= ty < height {
        law_blit_paints_visible_pixels(frame, g, x, y, width, height, color, row, col);
    }
}

} // verus!
