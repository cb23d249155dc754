//! Text and rectangle drawing into an RGBA frame buffer, with a bounded cache
//! of rasterised glyphs.

use std::collections::HashMap;

use fontdue::Font;
use vstd::prelude::*;
use vstd::std_specs::iter::IteratorSpec;

use crate::font_names::{check_full_name, full_name_decodes};
use crate::frame::{
    lemma_rect_done, lemma_rect_next_row, lemma_rect_offset_bound, lemma_rect_start, lemma_rect_step,
    rect_fill, rect_fill_upto, rect_offsets_fit, span_end,
};
use crate::glyph::{
    blit, blit_in_frame, blit_upto, glyph_target, lemma_blit_unfold, lemma_row_major_index, target_x,
    target_y,
};

verus! {

pub use crate::glyph::CachedGlyph;

#[verifier::external_type_specification]
#[verifier::external_body]
pub struct ExFont(fontdue::Font);

/// Whether `fontdue::Font::from_bytes`, given the default font settings,
/// accepts `data` as a font.
pub uninterp spec fn font_parses(data: Seq<u8>) -> bool;

/// `font` is a font that `fontdue::Font::from_bytes`, given the default
/// settings, made from `data`. A loaded font holds hash maps seeded afresh in
/// each process, so it is not a function of the bytes; this relates the two
/// and claims nothing more.
pub uninterp spec fn font_loaded_from(data: Seq<u8>, font: Font) -> bool;

/// Loads a font with `fontdue::Font::from_bytes` and the default settings.
/// `from_bytes` decodes the font's full name as UTF-16 without checking it
/// and panics on a malformed one, so such bytes are left out. Claimed of it:
/// whether loading succeeds depends on the bytes alone (`font_parses`), and a
/// loaded font is one made from these bytes (`font_loaded_from`).
#[verifier::external_body]
fn load_font(data: &[u8]) -> (res: Result<Font, &'static str>)
    requires
        full_name_decodes(data@),
    ensures
        res is Ok <==> font_parses(data@),
        res matches Ok(font) ==> font_loaded_from(data@, font),
{
    Font::from_bytes(data, fontdue::FontSettings::default())
}

/// Calls `HashMap::shrink_to_fit`, which gives back spare capacity and leaves
/// the entries as they are.
#[verifier::external_body]
fn shrink_cache(cache: &mut HashMap<u64, CachedGlyph>)
    ensures
        final(cache)@ == old(cache)@,
{
    cache.shrink_to_fit();
}

/// Why font bytes could not be loaded.
#[derive(Clone, Copy, Debug, PartialEq, Eq)]
pub enum FontError {
    /// The bytes are not a font that can be loaded.
    InvalidFontData,
    /// The font's full name is not well-formed UTF-16, which the loader
    /// cannot decode.
    MalformedName,
}

/// Once the cache holds more glyphs than this, it is emptied before the
/// next lookup.
pub const GLYPH_CACHE_LIMIT: usize = 5000;

/// The cache key of `character` rasterised at `size_px` pixels: the pair
/// packed into one integer.
pub open spec fn glyph_key(character: char, size_px: u32) -> u64 {
    ((character as u32) as int * 0x1_0000_0000 + size_px as int) as u64
}

fn cache_key(character: char, size_px: u32) -> (key: u64)
    ensures
        key == glyph_key(character, size_px),
{
    (character as u32 as u64) * 0x1_0000_0000u64 + size_px as u64
}

/// The cache that a lookup starts from: an over-full cache is emptied first.
pub open spec fn evict(cache: Map<u64, CachedGlyph>) -> Map<u64, CachedGlyph> {
    if cache.len() > GLYPH_CACHE_LIMIT {
        Map::empty()
    } else {
        cache
    }
}

/// Looking `character` up at `size_px` in cache `before` yields `glyph` and
/// leaves the cache `after`: a cached glyph is returned as it is; otherwise
/// `rasterize` is asked for the glyph, which is then cached.
pub open spec fn glyph_lookup<F: Fn(&Font, char) -> CachedGlyph>(
    before: Map<u64, CachedGlyph>,
    font: Font,
    rasterize: F,
    character: char,
    size_px: u32,
    glyph: CachedGlyph,
    after: Map<u64, CachedGlyph>,
) -> bool {
    let base = evict(before);
    let key = glyph_key(character, size_px);
    if base.contains_key(key) {
        glyph == base[key] && after == base
    } else {
        call_ensures(rasterize, (&font, character), glyph) && after == base.insert(key, glyph)
    }
}

/// The pen's column after the first `n` glyphs of `gs`, starting at `start_x`.
pub open spec fn pen_after(gs: Seq<CachedGlyph>, start_x: int, n: int) -> int
    decreases n,
{
    if n <= 0 {
        start_x
    } else {
        pen_after(gs, start_x, n - 1) + gs[n - 1].metrics.advance
    }
}

/// The frame after drawing the first `n` glyphs of `gs` side by side, the
/// first with its pen at `start_x`, all on baseline `y`.
pub open spec fn text_upto(
    frame: Seq<u8>,
    gs: Seq<CachedGlyph>,
    start_x: usize,
    y: usize,
    width: usize,
    height: usize,
    color: Seq<u8>,
    n: int,
) -> Seq<u8>
    decreases n,
{
    if n <= 0 {
        frame
    } else {
        blit(
            text_upto(frame, gs, start_x, y, width, height, color, n - 1),
            gs[n - 1],
            pen_after(gs, start_x as int, n - 1) as usize,
            y,
            width,
            height,
            color,
        )
    }
}

/// `gs` are the glyphs drawn for `text`: one per character from the first,
/// stopping right after the glyph that takes the pen to the screen's right
/// edge or past it.
pub open spec fn glyphs_drawn(text: Seq<char>, gs: Seq<CachedGlyph>, start_x: usize, width: usize) -> bool {
    &&& gs.len() <= text.len()
    &&& (text.len() > 0 ==> gs.len() > 0)
    &&& forall|k: int| 1 <= k < gs.len() ==> #[trigger] pen_after(gs, start_x as int, k) < width
    &&& gs.len() < text.len() ==> pen_after(gs, start_x as int, gs.len() as int) >= width
}

/// `gs` are the glyphs that successive lookups of the characters of `text`
/// at `size_px` yield, and `caches` the cache before and after each lookup.
pub open spec fn lookups<F: Fn(&Font, char) -> CachedGlyph>(
    caches: Seq<Map<u64, CachedGlyph>>,
    font: Font,
    rasterize: F,
    text: Seq<char>,
    size_px: u32,
    gs: Seq<CachedGlyph>,
) -> bool {
    &&& caches.len() == gs.len() + 1
    &&& forall|k: int|
        #![trigger gs[k]]
        0 <= k < gs.len() ==> glyph_lookup(
            caches[k],
            font,
            rasterize,
            text[k],
            size_px,
            gs[k],
            caches[k + 1],
        )
}

/// Every glyph in `cache` has a bitmap of exactly one byte per pixel.
pub open spec fn bitmaps_exact(cache: Map<u64, CachedGlyph>) -> bool {
    forall|k: u64| cache.contains_key(k) ==> (#[trigger] cache[k]).exact()
}

/// Every glyph `rasterize` can make from `font` for a character of `text`
/// has its whole bitmap.
pub open spec fn rasterizes_whole<F: Fn(&Font, char) -> CachedGlyph>(
    font: Font,
    rasterize: F,
    text: Seq<char>,
) -> bool {
    forall|c: char, g: CachedGlyph|
        #![trigger call_ensures(rasterize, (&font, c), g)]
        text.contains(c) && call_ensures(rasterize, (&font, c), g) ==> g.wf()
}

/// Every glyph `rasterize` can make from `font` for a character of `text`
/// has a bitmap of exactly one byte per pixel.
pub open spec fn rasterizes_exact<F: Fn(&Font, char) -> CachedGlyph>(
    font: Font,
    rasterize: F,
    text: Seq<char>,
) -> bool {
    forall|c: char, g: CachedGlyph|
        #![trigger call_ensures(rasterize, (&font, c), g)]
        text.contains(c) && call_ensures(rasterize, (&font, c), g) ==> g.exact()
}

/// Every pixel the glyph paints fits in a frame of `len` bytes, with its pen
/// at `start_x` or anywhere left of the right edge.
pub open spec fn fits_at_pens(
    g: CachedGlyph,
    start_x: usize,
    width: usize,
    height: usize,
    y: usize,
    len: int,
) -> bool {
    forall|x: usize| (x == start_x || x < width) ==> #[trigger] blit_in_frame(g, x, y, width, height, len)
}

/// Every glyph that drawing `text` could paint (a glyph `rasterize` makes,
/// or one cached, for a character of `text`) fits in a frame of `len` bytes
/// wherever its pen may stand.
pub open spec fn text_fits_frame<F: Fn(&Font, char) -> CachedGlyph>(
    cache: Map<u64, CachedGlyph>,
    font: Font,
    rasterize: F,
    text: Seq<char>,
    size_px: u32,
    start_x: usize,
    width: usize,
    height: usize,
    y: usize,
    len: int,
) -> bool {
    &&& forall|c: char, g: CachedGlyph|
        #![trigger call_ensures(rasterize, (&font, c), g)]
        text.contains(c) && call_ensures(rasterize, (&font, c), g) ==> fits_at_pens(
            g,
            start_x,
            width,
            height,
            y,
            len,
        )
    &&& forall|c: char|
        text.contains(c) && cache.contains_key(glyph_key(c, size_px)) ==> fits_at_pens(
            #[trigger] cache[glyph_key(c, size_px)],
            start_x,
            width,
            height,
            y,
            len,
        )
}

/// A frame that holds the whole screen holds whatever text is drawn on it.
pub proof fn lemma_screen_frame_fits_text<F: Fn(&Font, char) -> CachedGlyph>(
    cache: Map<u64, CachedGlyph>,
    font: Font,
    rasterize: F,
    text: Seq<char>,
    size_px: u32,
    start_x: usize,
    width: usize,
    height: usize,
    y: usize,
    len: int,
)
    requires
        len >= 4 * width * height,
    ensures
        text_fits_frame(cache, font, rasterize, text, size_px, start_x, width, height, y, len),
{
    assert forall|g: CachedGlyph| fits_at_pens(g, start_x, width, height, y, len) by {
        assert forall|x: usize| (x == start_x || x < width) implies #[trigger] blit_in_frame(
            g,
            x,
            y,
            width,
            height,
            len,
        ) by {
            lemma_screen_holds_glyph(g, x, y, width, height, len);
        }
    }
}

pub proof fn lemma_pen_push(gs: Seq<CachedGlyph>, g: CachedGlyph, start_x: int, n: int)
    requires
        n <= gs.len(),
    ensures
        pen_after(gs.push(g), start_x, n) == pen_after(gs, start_x, n),
    decreases n,
{
    if n > 0 {
        lemma_pen_push(gs, g, start_x, n - 1);
    }
}

pub proof fn lemma_text_push(
    frame: Seq<u8>,
    gs: Seq<CachedGlyph>,
    g: CachedGlyph,
    start_x: usize,
    y: usize,
    width: usize,
    height: usize,
    color: Seq<u8>,
    n: int,
)
    requires
        n <= gs.len(),
    ensures
        text_upto(frame, gs.push(g), start_x, y, width, height, color, n) == text_upto(
            frame,
            gs,
            start_x,
            y,
            width,
            height,
            color,
            n,
        ),
    decreases n,
{
    if n > 0 {
        lemma_text_push(frame, gs, g, start_x, y, width, height, color, n - 1);
        lemma_pen_push(gs, g, start_x as int, n - 1);
    }
}

/// On a frame that holds the whole screen, every pixel a glyph paints fits.
pub proof fn lemma_screen_holds_glyph(
    g: CachedGlyph,
    x: usize,
    y: usize,
    width: usize,
    height: usize,
    len: int,
)
    requires
        len >= 4 * width * height,
    ensures
        blit_in_frame(g, x, y, width, height, len),
{
    assert forall|row: int, col: int|
        0 <= row < g.metrics.height && 0 <= col < g.metrics.width && (#[trigger] glyph_target(
            g,
            x,
            y,
            width,
            height,
            row,
            col,
        )) is Some implies 4 * glyph_target(g, x, y, width, height, row, col)->0 + 3 < len by {
        let tx = target_x(g, x, col);
        let ty = target_y(g, y, row);
        assert(tx < width && ty < height);
        assert(ty * width + tx < width * height) by (nonlinear_arith)
            requires
                0 <= tx < width,
                0 <= ty < height,
        ;
        assert(4 * (width * height) == 4 * width * height) by (nonlinear_arith);
    }
}

/// A font with a cache of the glyphs rasterised from it, keyed by character
/// and pixel size.
pub struct FontManager {
    font: Font,
    cache: HashMap<u64, CachedGlyph>,
}

impl FontManager {
    /// The glyphs in the cache, by `glyph_key`.
    pub closed spec fn glyphs(&self) -> Map<u64, CachedGlyph> {
        self.cache@
    }

    /// The font that glyphs are rasterised from.
    pub closed spec fn loaded_font(&self) -> Font {
        self.font
    }

    /// Every cached glyph has its whole bitmap.
    pub open spec fn wf(&self) -> bool {
        forall|k: u64| self.glyphs().contains_key(k) ==> (#[trigger] self.glyphs()[k]).wf()
    }

    /// Loads the font in `font_data`, with an empty glyph cache.
    pub fn new(font_data: &[u8]) -> (manager: Self)
        requires
            full_name_decodes(font_data@),
            font_parses(font_data@),
        ensures
            manager.glyphs() == Map::<u64, CachedGlyph>::empty(),
            manager.wf(),
            font_loaded_from(font_data@, manager.loaded_font()),
    {
        let font = load_font(font_data).unwrap();
        FontManager { font, cache: HashMap::new() }
    }

    /// Loads the font in `font_data`, or reports why it cannot be loaded.
    pub fn try_new(font_data: &[u8]) -> (res: Result<Self, FontError>)
        ensures
            !full_name_decodes(font_data@) ==> res == Err::<Self, FontError>(FontError::MalformedName),
            full_name_decodes(font_data@) && !font_parses(font_data@) ==> res == Err::<Self, FontError>(
                FontError::InvalidFontData,
            ),
            full_name_decodes(font_data@) && font_parses(font_data@) ==> res is Ok,
            res matches Ok(manager) ==> {
                &&& manager.glyphs() == Map::<u64, CachedGlyph>::empty()
                &&& manager.wf()
                &&& font_loaded_from(font_data@, manager.loaded_font())
            },
    {
        if !check_full_name(font_data) {
            return Err(FontError::MalformedName);
        }
        match load_font(font_data) {
            Ok(font) => Ok(FontManager { font, cache: HashMap::new() }),
            Err(_) => Err(FontError::InvalidFontData),
        }
    }

    /// The glyph of `character` at `size_px` pixels: the cached one if there
    /// is one, else the one `rasterize` makes from the font, which is then
    /// cached. A cache that holds more than `GLYPH_CACHE_LIMIT` glyphs is
    /// emptied first.
    pub fn get_glyph<F: Fn(&Font, char) -> CachedGlyph>(
        &mut self,
        character: char,
        size_px: u32,
        rasterize: &F,
    ) -> (glyph: &CachedGlyph)
        requires
            call_requires(*rasterize, (&old(self).loaded_font(), character)),
        ensures
            final(self).loaded_font() == old(self).loaded_font(),
            glyph_lookup(
                old(self).glyphs(),
                old(self).loaded_font(),
                *rasterize,
                character,
                size_px,
                *glyph,
                final(self).glyphs(),
            ),
            final(self).glyphs().len() <= GLYPH_CACHE_LIMIT + 1,
            old(self).wf() && (forall|g: CachedGlyph|
                call_ensures(*rasterize, (&old(self).loaded_font(), character), g) ==> g.wf()) ==> {
                &&& final(self).wf()
                &&& glyph.wf()
            },
            bitmaps_exact(old(self).glyphs()) && (forall|g: CachedGlyph|
                call_ensures(*rasterize, (&old(self).loaded_font(), character), g) ==> g.exact()) ==> {
                &&& bitmaps_exact(final(self).glyphs())
                &&& glyph.exact()
            },
    {
        if self.cache.len() > GLYPH_CACHE_LIMIT {
            self.cache.clear();
            shrink_cache(&mut self.cache);
        }
        let key = cache_key(character, size_px);
        if !self.cache.contains_key(&key) {
            let glyph = rasterize(&self.font, character);
            self.cache.insert(key, glyph);
        }
        self.cache.get(&key).unwrap()
    }

    /// Empties the glyph cache.
    pub fn clear_cache(&mut self)
        ensures
            final(self).loaded_font() == old(self).loaded_font(),
            final(self).glyphs() == Map::<u64, CachedGlyph>::empty(),
            final(self).wf(),
    {
        self.cache.clear();
        shrink_cache(&mut self.cache);
    }
}

/// A screen of `width` x `height` pixels that text and rectangles are drawn onto.
pub struct World {
    pub font_manager: FontManager,
    pub width: usize,
    pub height: usize,
}

impl World {
    /// A `width` x `height` screen that draws text in the font in `font_data`.
    pub fn new(width: usize, height: usize, font_data: &[u8]) -> (world: Self)
        requires
            full_name_decodes(font_data@),
            font_parses(font_data@),
        ensures
            world.width == width,
            world.height == height,
            world.font_manager.glyphs() == Map::<u64, CachedGlyph>::empty(),
            world.font_manager.wf(),
            font_loaded_from(font_data@, world.font_manager.loaded_font()),
    {
        World { font_manager: FontManager::new(font_data), width, height }
    }

    /// A `width` x `height` screen that draws text in the font in
    /// `font_data`, or the report of why the font cannot be loaded.
    pub fn try_new(width: usize, height: usize, font_data: &[u8]) -> (res: Result<Self, FontError>)
        ensures
            !full_name_decodes(font_data@) ==> res == Err::<Self, FontError>(FontError::MalformedName),
            full_name_decodes(font_data@) && !font_parses(font_data@) ==> res == Err::<Self, FontError>(
                FontError::InvalidFontData,
            ),
            full_name_decodes(font_data@) && font_parses(font_data@) ==> res is Ok,
            res matches Ok(world) ==> {
                &&& world.width == width
                &&& world.height == height
                &&& world.font_manager.glyphs() == Map::<u64, CachedGlyph>::empty()
                &&& world.font_manager.wf()
                &&& font_loaded_from(font_data@, world.font_manager.loaded_font())
            },
    {
        if !check_full_name(font_data) {
            return Err(FontError::MalformedName);
        }
        if load_font(font_data).is_ok() {
            Ok(World::new(width, height, font_data))
        } else {
            Err(FontError::InvalidFontData)
        }
    }

    /// Empties the glyph cache.
    pub fn clear_font_cache(&mut self)
        ensures
            final(self).width == old(self).width,
            final(self).height == old(self).height,
            final(self).font_manager.loaded_font() == old(self).font_manager.loaded_font(),
            final(self).font_manager.glyphs() == Map::<u64, CachedGlyph>::empty(),
            final(self).font_manager.wf(),
    {
        self.font_manager.clear_cache();
        shrink_cache(&mut self.font_manager.cache);
    }

    /// Draws `text` left to right with its first pen position at column
    /// `start_x` on baseline row `baseline_y`, each character's glyph at
    /// `size_px` pixels taken from the cache (or made by `rasterize` and
    /// cached), and stops after the glyph that moves the pen to the right
    /// edge of the screen or past it.
    pub fn draw_text<F: Fn(&Font, char) -> CachedGlyph>(
        &mut self,
        frame: &mut [u8],
        text: &str,
        start_x: usize,
        baseline_y: usize,
        size_px: u32,
        color: [u8; 3],
        rasterize: &F,
    )
        requires
            old(self).font_manager.wf(),
            forall|c: char|
                text@.contains(c) ==> call_requires(
                    *rasterize,
                    (&old(self).font_manager.loaded_font(), c),
                ),
            rasterizes_whole(old(self).font_manager.loaded_font(), *rasterize, text@),
            text_fits_frame(
                old(self).font_manager.glyphs(),
                old(self).font_manager.loaded_font(),
                *rasterize,
                text@,
                size_px,
                start_x,
                old(self).width,
                old(self).height,
                baseline_y,
                old(frame)@.len() as int,
            ),
        ensures
            final(self).width == old(self).width,
            final(self).height == old(self).height,
            final(self).font_manager.loaded_font() == old(self).font_manager.loaded_font(),
            final(self).font_manager.wf(),
            bitmaps_exact(old(self).font_manager.glyphs()) && rasterizes_exact(
                old(self).font_manager.loaded_font(),
                *rasterize,
                text@,
            ) ==> bitmaps_exact(final(self).font_manager.glyphs()),
            exists|gs: Seq<CachedGlyph>, caches: Seq<Map<u64, CachedGlyph>>|
                {
                    &&& #[trigger] lookups(
                        caches,
                        old(self).font_manager.loaded_font(),
                        *rasterize,
                        text@,
                        size_px,
                        gs,
                    )
                    &&& caches[0] == old(self).font_manager.glyphs()
                    &&& caches.last() == final(self).font_manager.glyphs()
                    &&& glyphs_drawn(text@, gs, start_x, old(self).width)
                    &&& final(frame)@ == text_upto(
                        old(frame)@,
                        gs,
                        start_x,
                        baseline_y,
                        old(self).width,
                        old(self).height,
                        color@,
                        gs.len() as int,
                    )
                },
    {
        let screen_width = self.width;
        let screen_height = self.height;
        let ghost old_frame = frame@;
        let ghost font = self.font_manager.loaded_font();
        let ghost mut gs: Seq<CachedGlyph> = Seq::empty();
        let ghost mut caches: Seq<Map<u64, CachedGlyph>> = seq![self.font_manager.glyphs()];
        let mut cursor_x = start_x;
        let mut chars = text.chars();
        loop
            invariant_except_break
                cursor_x as int == pen_after(gs, start_x as int, gs.len() as int),
                forall|k: int| 1 <= k <= gs.len() ==> #[trigger] pen_after(gs, start_x as int, k) < screen_width,
            invariant
                screen_width == self.width,
                screen_height == self.height,
                old(self).width == self.width,
                old(self).height == self.height,
                font == self.font_manager.loaded_font(),
                font == old(self).font_manager.loaded_font(),
                frame@.len() == old_frame.len(),
                forall|c: char| text@.contains(c) ==> call_requires(*rasterize, (&font, c)),
                rasterizes_whole(font, *rasterize, text@),
                self.font_manager.wf(),
                bitmaps_exact(old(self).font_manager.glyphs()) && rasterizes_exact(font, *rasterize, text@)
                    ==> bitmaps_exact(self.font_manager.glyphs()),
                text_fits_frame(
                    self.font_manager.glyphs(),
                    font,
                    *rasterize,
                    text@,
                    size_px,
                    start_x,
                    screen_width,
                    screen_height,
                    baseline_y,
                    old_frame.len() as int,
                ),
                chars.obeys_prophetic_iter_laws(),
                gs.len() <= text@.len(),
                chars.remaining() == text@.skip(gs.len() as int),
                lookups(caches, font, *rasterize, text@, size_px, gs),
                caches[0] == old(self).font_manager.glyphs(),
                caches.last() == self.font_manager.glyphs(),
                frame@ == text_upto(old_frame, gs, start_x, baseline_y, screen_width, screen_height, color@, gs.len() as int),
            ensures
                glyphs_drawn(text@, gs, start_x, screen_width),
                lookups(caches, font, *rasterize, text@, size_px, gs),
                caches[0] == old(self).font_manager.glyphs(),
                caches.last() == self.font_manager.glyphs(),
                old(self).width == self.width,
                old(self).height == self.height,
                font == self.font_manager.loaded_font(),
                self.font_manager.wf(),
                bitmaps_exact(old(self).font_manager.glyphs()) && rasterizes_exact(font, *rasterize, text@)
                    ==> bitmaps_exact(self.font_manager.glyphs()),
                frame@ == text_upto(old_frame, gs, start_x, baseline_y, screen_width, screen_height, color@, gs.len() as int),
            decreases text@.len() - gs.len(),
        {
            let next = chars.next();
            let c = match next {
                Some(c) => c,
                None => {
                    break;
                },
            };
            let ghost before_cache = self.font_manager.glyphs();
            let ghost n = gs.len();
            proof {
                assert(text@.skip(n as int)[0] == text@[n as int]);
                assert(text@.contains(c));
            }
            let glyph = self.font_manager.get_glyph(c, size_px, rasterize);
            let ghost g = *glyph;
            let advance = glyph.metrics.advance;
            proof {
                let key = glyph_key(c, size_px);
                let base = evict(before_cache);
                if base.contains_key(key) {
                    assert(before_cache.contains_key(key));
                    assert(before_cache[key].wf());
                    assert(fits_at_pens(before_cache[key], start_x, screen_width, screen_height, baseline_y, old_frame.len() as int));
                } else {
                    assert(call_ensures(*rasterize, (&font, c), g));
                }
                assert(g.wf());
                if bitmaps_exact(old(self).font_manager.glyphs()) && rasterizes_exact(font, *rasterize, text@) {
                    assert forall|r: CachedGlyph| call_ensures(*rasterize, (&font, c), r) implies r.exact() by {}
                }
                assert(fits_at_pens(g, start_x, screen_width, screen_height, baseline_y, old_frame.len() as int));
                assert(n > 0 ==> pen_after(gs, start_x as int, n as int) < screen_width);
                assert(blit_in_frame(g, cursor_x, baseline_y, screen_width, screen_height, old_frame.len() as int));
            }
            Self::blit_glyph(frame, screen_width, screen_height, glyph, cursor_x, baseline_y, color);
            proof {
                let key = glyph_key(c, size_px);
                let after = self.font_manager.glyphs();
                assert forall|c2: char|
                    text@.contains(c2) && after.contains_key(glyph_key(c2, size_px)) implies fits_at_pens(
                        #[trigger] after[glyph_key(c2, size_px)],
                        start_x,
                        screen_width,
                        screen_height,
                        baseline_y,
                        old_frame.len() as int,
                    ) by {
                    if glyph_key(c2, size_px) != key {
                        assert(before_cache.contains_key(glyph_key(c2, size_px)));
                    }
                }
                lemma_text_push(old_frame, gs, g, start_x, baseline_y, screen_width, screen_height, color@, n as int);
                lemma_pen_push(gs, g, start_x as int, n as int);
                assert forall|k: int| 1 <= k <= n implies #[trigger] pen_after(gs.push(g), start_x as int, k) == pen_after(gs, start_x as int, k) by {
                    lemma_pen_push(gs, g, start_x as int, k);
                }
                gs = gs.push(g);
                caches = caches.push(self.font_manager.glyphs());
            }
            match cursor_x.checked_add(advance) {
                Some(next_x) => {
                    cursor_x = next_x;
                    if cursor_x >= screen_width {
                        break;
                    }
                },
                None => {
                    break;
                },
            }
        }
        proof {
            assert(lookups(caches, font, *rasterize, text@, size_px, gs));
        }
    }

    /// Draws `glyph` with its pen at column `x` on baseline row `y` of a
    /// `width` x `height` screen: every bitmap pixel with non-zero coverage
    /// that lands on the screen gets `color` and the coverage as alpha.
    pub fn blit_glyph(
        frame: &mut [u8],
        width: usize,
        height: usize,
        glyph: &CachedGlyph,
        x: usize,
        y: usize,
        color: [u8; 3],
    )
        requires
            glyph.wf(),
            blit_in_frame(*glyph, x, y, width, height, old(frame)@.len() as int),
        ensures
            final(frame)@.len() == old(frame)@.len(),
            final(frame)@ == blit(old(frame)@, *glyph, x, y, width, height, color@),
    {
        let ghost old_frame = frame@;
        let g_width = glyph.metrics.width;
        let g_height = glyph.metrics.height;
        let bitmap_len = glyph.bitmap.len();
        let mut row: usize = 0;
        while row < g_height
            invariant
                row <= g_height,
                g_width == glyph.metrics.width,
                g_height == glyph.metrics.height,
                bitmap_len == glyph.bitmap@.len(),
                glyph.wf(),
                blit_in_frame(*glyph, x, y, width, height, old_frame.len() as int),
                frame@.len() == old_frame.len(),
                frame@ == blit_upto(old_frame, *glyph, x, y, width, height, color@, row * g_width),
            decreases g_height - row,
        {
            let mut col: usize = 0;
            while col < g_width
                invariant
                    row < g_height,
                    col <= g_width,
                    g_width == glyph.metrics.width,
                    g_height == glyph.metrics.height,
                    bitmap_len == glyph.bitmap@.len(),
                    glyph.wf(),
                    blit_in_frame(*glyph, x, y, width, height, old_frame.len() as int),
                    frame@.len() == old_frame.len(),
                    frame@ == blit_upto(
                        old_frame,
                        *glyph,
                        x,
                        y,
                        width,
                        height,
                        color@,
                        row * g_width + col,
                    ),
                decreases g_width - col,
            {
                proof {
                    lemma_row_major_index(row as int, col as int, g_width as int, g_height as int);
                    lemma_blit_unfold(old_frame, *glyph, x, y, width, height, color@, row as int, col as int);
                }
                let opacity = glyph.bitmap[row * g_width + col];
                if opacity != 0 {
                    let target_x: i64 = (#[verifier::truncate] (x as i32)) as i64 + glyph.metrics.xmin as i64
                        + (#[verifier::truncate] (col as i32)) as i64;
                    let target_y: i64 = (#[verifier::truncate] (y as i32)) as i64 - glyph.metrics.ymin as i64
                        - (#[verifier::truncate] (g_height as i32)) as i64 + (#[verifier::truncate] (row as i32)) as i64;
                    let screen_w: i64 = (#[verifier::truncate] (width as isize)) as i64;
                    let screen_h: i64 = (#[verifier::truncate] (height as isize)) as i64;
                    if target_x >= 0 && target_x < screen_w && target_y >= 0 && target_y < screen_h {
                        assert(glyph_target(*glyph, x, y, width, height, row as int, col as int) is Some);
                        let flen = frame.len();
                        let ty = target_y as usize;
                        let tx = target_x as usize;
                        assert(ty * width + tx == glyph_target(*glyph, x, y, width, height, row as int, col as int)->0);
                        assert(4 * (ty * width + tx) + 3 < flen);
                        assert(ty * width <= ty * width + tx);
                        let pixel_index = (ty * width + tx) * 4;
                        frame[pixel_index] = color[0];
                        frame[pixel_index + 1] = color[1];
                        frame[pixel_index + 2] = color[2];
                        frame[pixel_index + 3] = opacity;
                    }
                }
                col = col + 1;
            }
            assert(row * g_width + g_width == (row + 1) * g_width) by (nonlinear_arith);
            row = row + 1;
        }
        assert(row * g_width == g_width * g_height) by (nonlinear_arith)
            requires
                row == g_height,
        ;
    }
    /// Fills the rectangle of `w` x `h` pixels whose top-left corner is
    /// (`x`, `y`) with `color`, clipped to the screen; a pixel whose four bytes
    /// do not all lie inside `frame` is left alone.
    pub fn draw_rect(&self, frame: &mut [u8], x: u32, y: u32, w: u32, h: u32, color: [u8; 4])
        requires
            x + w <= u32::MAX,
            y + h <= u32::MAX,
            rect_offsets_fit(self.width, self.height, x, y, w, h),
        ensures
            final(frame)@ == rect_fill(old(frame)@, self.width, self.height, x, y, w, h, color@),
    {
        let limit_r = self.height as u32;
        let end_r = if y + h < limit_r { y + h } else { limit_r };
        let limit_c = self.width as u32;
        let end_c = if x + w < limit_c { x + w } else { limit_c };
        let ghost old_frame = frame@;
        let ghost len = old_frame.len() as int;
        let width = self.width;
        assert(end_r == span_end(y, h, self.height));
        assert(end_c == span_end(x, w, self.width));
        assert(end_c <= width);
        proof {
            lemma_rect_start(old_frame, width, self.height, x, y, w, h, color@);
        }
        let mut row = y;
        while row < end_r
            invariant
                y <= row,
                row <= end_r || row == y,
                end_r == span_end(y, h, self.height),
                end_c == span_end(x, w, self.width),
                end_c <= width,
                width == self.width,
                frame@.len() == len,
                len == old_frame.len(),
                rect_offsets_fit(self.width, self.height, x, y, w, h),
                frame@ == rect_fill_upto(old_frame, width, self.height, x, y, w, h, color@, row as int, x as int),
            decreases end_r - row,
        {
            let mut col = x;
            while col < end_c
                invariant
                    y <= row < end_r,
                    x <= col,
                    col <= end_c || col == x,
                    end_r == span_end(y, h, self.height),
                    end_c == span_end(x, w, self.width),
                    end_c <= width,
                    width == self.width,
                    frame@.len() == len,
                    len == old_frame.len(),
                    rect_offsets_fit(self.width, self.height, x, y, w, h),
                    frame@ == rect_fill_upto(old_frame, width, self.height, x, y, w, h, color@, row as int, col as int),
                decreases end_c - col,
            {
                proof {
                    lemma_rect_offset_bound(width as int, row as int, col as int, end_r as int - 1, end_c as int - 1);
                }
                let ghost before = frame@;
                let pixel_idx = (row as usize * width + col as usize) * 4;
                if pixel_idx + 3 < frame.len() {
                    frame[pixel_idx] = color[0];
                    frame[pixel_idx + 1] = color[1];
                    frame[pixel_idx + 2] = color[2];
                    frame[pixel_idx + 3] = color[3];
                }
                proof {
                    lemma_rect_step(old_frame, before, frame@, width, self.height, x, y, w, h, color@, row as int, col as int);
                }
                col = col + 1;
            }
            proof {
                lemma_rect_next_row(old_frame, width, self.height, x, y, w, h, color@, row as int, col as int);
            }
            row = row + 1;
        }
        proof {
            lemma_rect_done(old_frame, width, self.height, x, y, w, h, color@, row as int);
        }
    }
}

} // verus!
