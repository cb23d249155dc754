use std::cell::Cell;

use taskman::glyph::GlyphMetrics;
use taskman::world::{CachedGlyph, FontError, FontManager, World, GLYPH_CACHE_LIMIT};

/// A minimal TrueType font: the three tables a face needs and one glyph.
fn tiny_font() -> Vec<u8> {
    let mut f: Vec<u8> = Vec::new();
    let be16 = |v: &mut Vec<u8>, x: u16| v.extend_from_slice(&x.to_be_bytes());
    let be32 = |v: &mut Vec<u8>, x: u32| v.extend_from_slice(&x.to_be_bytes());
    be32(&mut f, 0x0001_0000);
    be16(&mut f, 3);
    be16(&mut f, 0);
    be16(&mut f, 0);
    be16(&mut f, 0);
    let tables: [(&[u8; 4], u32, u32); 3] = [(b"head", 60, 54), (b"hhea", 114, 36), (b"maxp", 150, 6)];
    for (tag, offset, len) in tables.iter() {
        f.extend_from_slice(&tag[..]);
        be32(&mut f, 0);
        be32(&mut f, *offset);
        be32(&mut f, *len);
    }
    let mut head = vec![0u8; 54];
    head[0..4].copy_from_slice(&0x0001_0000u32.to_be_bytes());
    head[12..16].copy_from_slice(&0x5F0F_3CF5u32.to_be_bytes());
    head[18..20].copy_from_slice(&1000u16.to_be_bytes());
    f.extend_from_slice(&head);
    let mut hhea = vec![0u8; 36];
    hhea[0..4].copy_from_slice(&0x0001_0000u32.to_be_bytes());
    hhea[34..36].copy_from_slice(&1u16.to_be_bytes());
    f.extend_from_slice(&hhea);
    be32(&mut f, 0x0000_5000);
    be16(&mut f, 1);
    f
}

/// The minimal font with a name table whose only record is a Unicode full
/// name holding `name`.
fn font_named(name: &[u8]) -> Vec<u8> {
    let mut f: Vec<u8> = Vec::new();
    let be16 = |v: &mut Vec<u8>, x: u16| v.extend_from_slice(&x.to_be_bytes());
    let be32 = |v: &mut Vec<u8>, x: u32| v.extend_from_slice(&x.to_be_bytes());
    be32(&mut f, 0x0001_0000);
    be16(&mut f, 4);
    be16(&mut f, 0);
    be16(&mut f, 0);
    be16(&mut f, 0);
    let name_len = 18 + name.len() as u32;
    let tables: [(&[u8; 4], u32, u32); 4] =
        [(b"head", 76, 54), (b"hhea", 130, 36), (b"maxp", 166, 6), (b"name", 172, name_len)];
    for (tag, offset, len) in tables.iter() {
        f.extend_from_slice(&tag[..]);
        be32(&mut f, 0);
        be32(&mut f, *offset);
        be32(&mut f, *len);
    }
    let mut head = vec![0u8; 54];
    head[0..4].copy_from_slice(&0x0001_0000u32.to_be_bytes());
    head[12..16].copy_from_slice(&0x5F0F_3CF5u32.to_be_bytes());
    head[18..20].copy_from_slice(&1000u16.to_be_bytes());
    f.extend_from_slice(&head);
    let mut hhea = vec![0u8; 36];
    hhea[0..4].copy_from_slice(&0x0001_0000u32.to_be_bytes());
    hhea[34..36].copy_from_slice(&1u16.to_be_bytes());
    f.extend_from_slice(&hhea);
    be32(&mut f, 0x0000_5000);
    be16(&mut f, 1);
    // name table: format 0, one record, storage right after it
    be16(&mut f, 0);
    be16(&mut f, 1);
    be16(&mut f, 18);
    be16(&mut f, 0);
    be16(&mut f, 3);
    be16(&mut f, 0);
    be16(&mut f, 4);
    be16(&mut f, name.len() as u16);
    be16(&mut f, 0);
    f.extend_from_slice(name);
    f
}

fn dot(advance: usize, coverage: u8) -> CachedGlyph {
    CachedGlyph {
        bitmap: vec![coverage],
        metrics: GlyphMetrics { xmin: 0, ymin: 0, width: 1, height: 1, advance },
    }
}

#[test]
fn font_manager_refuses_bytes_that_are_not_a_font() {
    let res = FontManager::try_new(&[1, 2, 3, 4, 5]);
    assert!(matches!(res, Err(FontError::InvalidFontData)));
}

#[test]
fn font_with_a_well_formed_full_name_loads() {
    assert!(FontManager::try_new(&font_named(&[0x00, 0x41, 0xD8, 0x3D, 0xDE, 0x00])).is_ok());
    assert!(World::try_new(4, 4, &font_named(&[0x00, 0x41])).is_ok());
}

#[test]
fn font_whose_full_name_has_an_odd_length_is_refused() {
    let res = FontManager::try_new(&font_named(&[0x00, 0x41, 0x00]));
    assert!(matches!(res, Err(FontError::MalformedName)));
}

#[test]
fn font_whose_full_name_breaks_a_surrogate_pair_is_refused() {
    let res = World::try_new(4, 4, &font_named(&[0xD8, 0x00, 0x00, 0x41]));
    assert!(matches!(res, Err(FontError::MalformedName)));
    let res = FontManager::try_new(&font_named(&[0xDC, 0x00, 0xDC, 0x00]));
    assert!(matches!(res, Err(FontError::MalformedName)));
}

#[test]
fn font_manager_loads_a_font() {
    assert!(FontManager::try_new(&tiny_font()).is_ok());
}

#[test]
fn world_refuses_bytes_that_are_not_a_font() {
    let res = World::try_new(10, 10, &[0u8; 12]);
    assert!(matches!(res, Err(FontError::InvalidFontData)));
}

#[test]
fn world_new_keeps_the_screen_size() {
    let w = World::new(480, 540, &tiny_font());
    assert_eq!(w.width, 480);
    assert_eq!(w.height, 540);
}

#[test]
fn get_glyph_rasterises_once_and_then_reuses_the_cached_glyph() {
    let mut fm = FontManager::new(&tiny_font());
    let calls = Cell::new(0u32);
    let rasterize = |_: &fontdue::Font, c: char| {
        calls.set(calls.get() + 1);
        dot(c as usize, 200)
    };
    let first = fm.get_glyph('x', 12, &rasterize).metrics.advance;
    let second = fm.get_glyph('x', 12, &rasterize).metrics.advance;
    assert_eq!(first, 'x' as usize);
    assert_eq!(second, first);
    assert_eq!(calls.get(), 1);
    // another size is another glyph
    fm.get_glyph('x', 13, &rasterize);
    assert_eq!(calls.get(), 2);
}

#[test]
fn clear_cache_forgets_glyphs() {
    let mut fm = FontManager::new(&tiny_font());
    let calls = Cell::new(0u32);
    let rasterize = |_: &fontdue::Font, _: char| {
        calls.set(calls.get() + 1);
        dot(1, 1)
    };
    fm.get_glyph('a', 10, &rasterize);
    fm.clear_cache();
    fm.get_glyph('a', 10, &rasterize);
    assert_eq!(calls.get(), 2);
}

#[test]
fn over_full_cache_is_emptied_before_the_next_lookup() {
    let mut fm = FontManager::new(&tiny_font());
    let calls = Cell::new(0u32);
    let rasterize = |_: &fontdue::Font, _: char| {
        calls.set(calls.get() + 1);
        dot(1, 1)
    };
    for size in 0..=(GLYPH_CACHE_LIMIT as u32) {
        fm.get_glyph('a', size, &rasterize);
    }
    assert_eq!(calls.get(), GLYPH_CACHE_LIMIT as u32 + 1);
    // 5001 glyphs are cached now; the next lookup empties the cache first,
    // so even a glyph that was cached is rasterised again.
    fm.get_glyph('a', 0, &rasterize);
    assert_eq!(calls.get(), GLYPH_CACHE_LIMIT as u32 + 2);
    // and is then cached again
    fm.get_glyph('a', 0, &rasterize);
    assert_eq!(calls.get(), GLYPH_CACHE_LIMIT as u32 + 2);
}

#[test]
fn cache_at_its_limit_is_kept() {
    let mut fm = FontManager::new(&tiny_font());
    let calls = Cell::new(0u32);
    let rasterize = |_: &fontdue::Font, _: char| {
        calls.set(calls.get() + 1);
        dot(1, 1)
    };
    for size in 0..(GLYPH_CACHE_LIMIT as u32) {
        fm.get_glyph('b', size, &rasterize);
    }
    fm.get_glyph('b', 0, &rasterize);
    assert_eq!(calls.get(), GLYPH_CACHE_LIMIT as u32);
}

#[test]
fn world_clear_font_cache_forgets_glyphs() {
    let mut w = World::new(4, 2, &tiny_font());
    let calls = Cell::new(0u32);
    let rasterize = |_: &fontdue::Font, _: char| {
        calls.set(calls.get() + 1);
        dot(1, 1)
    };
    let mut frame = vec![0u8; 4 * 2 * 4];
    w.draw_text(&mut frame, "a", 0, 1, 12, [1, 1, 1], &rasterize);
    w.clear_font_cache();
    w.draw_text(&mut frame, "a", 0, 1, 12, [1, 1, 1], &rasterize);
    assert_eq!(calls.get(), 2);
}

#[test]
fn draw_text_places_glyphs_side_by_side_and_stops_at_the_right_edge() {
    let mut w = World::new(4, 2, &tiny_font());
    let calls = Cell::new(0u32);
    let rasterize = |_: &fontdue::Font, _: char| {
        calls.set(calls.get() + 1);
        dot(2, 255)
    };
    let mut frame = vec![0u8; 4 * 2 * 4];
    w.draw_text(&mut frame, "abc", 0, 1, 12, [10, 20, 30], &rasterize);
    // pen at 0, then 2; after the second glyph it is at 4, the right edge
    assert_eq!(&frame[0..4], &[10, 20, 30, 255]);
    assert_eq!(&frame[4..8], &[0, 0, 0, 0]);
    assert_eq!(&frame[8..12], &[10, 20, 30, 255]);
    assert_eq!(&frame[12..16], &[0, 0, 0, 0]);
    assert_eq!(&frame[16..32], &[0u8; 16]);
    assert_eq!(calls.get(), 2);
}

#[test]
fn draw_text_reuses_cached_glyphs() {
    let mut w = World::new(10, 2, &tiny_font());
    let calls = Cell::new(0u32);
    let rasterize = |_: &fontdue::Font, _: char| {
        calls.set(calls.get() + 1);
        dot(1, 9)
    };
    let mut frame = vec![0u8; 10 * 2 * 4];
    w.draw_text(&mut frame, "aaba", 0, 1, 12, [1, 2, 3], &rasterize);
    assert_eq!(calls.get(), 2);
    for x in 0..4 {
        assert_eq!(&frame[x * 4..x * 4 + 4], &[1, 2, 3, 9]);
    }
}

#[test]
fn draw_text_of_nothing_draws_nothing() {
    let mut w = World::new(4, 2, &tiny_font());
    let rasterize = |_: &fontdue::Font, _: char| dot(1, 1);
    let mut frame = vec![5u8; 4 * 2 * 4];
    w.draw_text(&mut frame, "", 0, 1, 12, [0, 0, 0], &rasterize);
    assert_eq!(frame, vec![5u8; 32]);
}

#[test]
fn draw_text_always_draws_the_first_glyph() {
    let mut w = World::new(4, 2, &tiny_font());
    let calls = Cell::new(0u32);
    let rasterize = |_: &fontdue::Font, _: char| {
        calls.set(calls.get() + 1);
        dot(1, 1)
    };
    let mut frame = vec![0u8; 4 * 2 * 4];
    w.draw_text(&mut frame, "xyz", 9, 1, 12, [0, 0, 0], &rasterize);
    // the first glyph is looked up (and falls off the screen), then drawing stops
    assert_eq!(calls.get(), 1);
    assert_eq!(frame, vec![0u8; 32]);
}

#[test]
fn draw_text_of_nothing_into_an_empty_frame() {
    let mut w = World::new(4, 2, &tiny_font());
    let rasterize = |_: &fontdue::Font, _: char| dot(1, 1);
    let mut frame: Vec<u8> = Vec::new();
    w.draw_text(&mut frame, "", 0, 1, 12, [0, 0, 0], &rasterize);
    assert!(frame.is_empty());
}

#[test]
fn draw_text_into_a_frame_that_holds_only_the_painted_rows() {
    // a 4 x 2 screen, but the frame holds only its first row
    let mut w = World::new(4, 2, &tiny_font());
    let rasterize = |_: &fontdue::Font, _: char| dot(1, 200);
    let mut frame = vec![0u8; 4 * 4];
    w.draw_text(&mut frame, "ab", 0, 1, 12, [7, 8, 9], &rasterize);
    assert_eq!(&frame[0..8], &[7, 8, 9, 200, 7, 8, 9, 200]);
    assert_eq!(&frame[8..16], &[0u8; 8]);
}

#[test]
fn rasterised_glyphs_keep_one_byte_per_pixel() {
    let mut fm = FontManager::new(&tiny_font());
    let rasterize = |_: &fontdue::Font, _: char| CachedGlyph {
        bitmap: vec![1, 2, 3, 4, 5, 6],
        metrics: GlyphMetrics { xmin: 0, ymin: 0, width: 3, height: 2, advance: 3 },
    };
    let g = fm.get_glyph('q', 20, &rasterize);
    assert_eq!(g.bitmap.len(), g.metrics.width * g.metrics.height);
    assert_eq!(g.bitmap, vec![1, 2, 3, 4, 5, 6]);
}
