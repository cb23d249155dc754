use taskman::glyph::GlyphMetrics;
use taskman::world::{CachedGlyph, World};

fn glyph(xmin: i32, ymin: i32, width: usize, height: usize, advance: usize, bitmap: Vec<u8>) -> CachedGlyph {
    CachedGlyph {
        bitmap,
        metrics: GlyphMetrics { xmin, ymin, width, height, advance },
    }
}

fn pixel(frame: &[u8], width: usize, x: usize, y: usize) -> [u8; 4] {
    let i = (y * width + x) * 4;
    [frame[i], frame[i + 1], frame[i + 2], frame[i + 3]]
}

fn world(width: usize, height: usize) -> World {
    World::try_new(width, height, &support_font()).expect("test font loads")
}

/// A minimal TrueType font: the three tables a face needs and one glyph.
fn support_font() -> Vec<u8> {
    let mut f: Vec<u8> = Vec::new();
    let be16 = |v: &mut Vec<u8>, x: u16| v.extend_from_slice(&x.to_be_bytes());
    let be32 = |v: &mut Vec<u8>, x: u32| v.extend_from_slice(&x.to_be_bytes());
    be32(&mut f, 0x0001_0000);
    be16(&mut f, 3);
    be16(&mut f, 0);
    be16(&mut f, 0);
    be16(&mut f, 0);
    let tables: [(&[u8; 4], u32, u32); 3] = [(b"head", 60, 54), (b"hhea", 114, 36), (b"maxp", 150, 6)];
    for (tag, offset, len) in tables.iter() {
        f.extend_from_slice(&tag[..]);
        be32(&mut f, 0);
        be32(&mut f, *offset);
        be32(&mut f, *len);
    }
    let mut head = vec![0u8; 54];
    head[0..4].copy_from_slice(&0x0001_0000u32.to_be_bytes());
    head[12..16].copy_from_slice(&0x5F0F_3CF5u32.to_be_bytes());
    head[18..20].copy_from_slice(&1000u16.to_be_bytes());
    f.extend_from_slice(&head);
    let mut hhea = vec![0u8; 36];
    hhea[0..4].copy_from_slice(&0x0001_0000u32.to_be_bytes());
    hhea[34..36].copy_from_slice(&1u16.to_be_bytes());
    f.extend_from_slice(&hhea);
    be32(&mut f, 0x0000_5000);
    be16(&mut f, 1);
    f
}

#[test]
fn draw_rect_fills_exactly_the_rectangle() {
    let w = world(4, 3);
    let mut frame = vec![0u8; 4 * 3 * 4];
    w.draw_rect(&mut frame, 1, 1, 2, 1, [1, 2, 3, 4]);
    for y in 0..3 {
        for x in 0..4 {
            let expected = if y == 1 && (x == 1 || x == 2) { [1, 2, 3, 4] } else { [0, 0, 0, 0] };
            assert_eq!(pixel(&frame, 4, x, y), expected, "pixel ({}, {})", x, y);
        }
    }
}

#[test]
fn draw_rect_is_clipped_to_the_screen() {
    let w = world(4, 3);
    let mut frame = vec![0u8; 4 * 3 * 4];
    w.draw_rect(&mut frame, 2, 1, 10, 10, [9, 9, 9, 255]);
    let painted: usize = (0..3).flat_map(|y| (0..4).map(move |x| (x, y)))
        .filter(|&(x, y)| pixel(&frame, 4, x, y) == [9, 9, 9, 255]).count();
    assert_eq!(painted, 4);
    assert_eq!(pixel(&frame, 4, 3, 2), [9, 9, 9, 255]);
    assert_eq!(pixel(&frame, 4, 1, 1), [0, 0, 0, 0]);
}

#[test]
fn draw_rect_skips_pixels_past_the_end_of_a_short_frame() {
    let w = world(4, 3);
    let mut frame = vec![0u8; 22];
    w.draw_rect(&mut frame, 0, 1, 4, 1, [5, 6, 7, 8]);
    assert_eq!(&frame[16..20], &[5, 6, 7, 8]);
    assert_eq!(&frame[20..22], &[0, 0]);
}

#[test]
fn draw_rect_twice_equals_once() {
    let w = world(5, 5);
    let mut once = vec![3u8; 100];
    w.draw_rect(&mut once, 1, 2, 3, 2, [10, 20, 30, 40]);
    let mut twice = once.clone();
    w.draw_rect(&mut twice, 1, 2, 3, 2, [10, 20, 30, 40]);
    assert_eq!(once, twice);
}

#[test]
fn draw_rect_with_no_height_changes_nothing() {
    let w = world(5, 5);
    let mut frame = vec![7u8; 100];
    w.draw_rect(&mut frame, 1, 1, 3, 0, [0, 0, 0, 0]);
    assert_eq!(frame, vec![7u8; 100]);
}

#[test]
fn blit_glyph_paints_visible_pixels_with_coverage_as_alpha() {
    let g = glyph(0, 0, 2, 2, 2, vec![0, 9, 7, 0]);
    let mut frame = vec![0u8; 4 * 4 * 4];
    World::blit_glyph(&mut frame, 4, 4, &g, 1, 3, [100, 110, 120]);
    assert_eq!(pixel(&frame, 4, 2, 1), [100, 110, 120, 9]);
    assert_eq!(pixel(&frame, 4, 1, 2), [100, 110, 120, 7]);
    assert_eq!(pixel(&frame, 4, 1, 1), [0, 0, 0, 0]);
    assert_eq!(pixel(&frame, 4, 2, 2), [0, 0, 0, 0]);
}

#[test]
fn blit_glyph_uses_the_offsets_of_the_metrics() {
    let g = glyph(-1, 1, 3, 1, 3, vec![1, 2, 3]);
    let mut frame = vec![0u8; 3 * 3 * 4];
    World::blit_glyph(&mut frame, 3, 3, &g, 1, 2, [4, 5, 6]);
    // top row at 2 - 1 - 1 = 0; columns from 1 - 1 = 0
    assert_eq!(pixel(&frame, 3, 0, 0), [4, 5, 6, 1]);
    assert_eq!(pixel(&frame, 3, 1, 0), [4, 5, 6, 2]);
    assert_eq!(pixel(&frame, 3, 2, 0), [4, 5, 6, 3]);
}

#[test]
fn blit_glyph_clips_pixels_off_the_screen() {
    let g = glyph(-2, 0, 3, 1, 3, vec![50, 60, 70]);
    let mut frame = vec![0u8; 2 * 1 * 4];
    World::blit_glyph(&mut frame, 2, 1, &g, 1, 1, [1, 1, 1]);
    // columns -1, 0, 1: the first is off the screen
    assert_eq!(pixel(&frame, 2, 0, 0), [1, 1, 1, 60]);
    assert_eq!(pixel(&frame, 2, 1, 0), [1, 1, 1, 70]);
}

#[test]
fn blit_transparent_glyph_changes_nothing() {
    let g = glyph(0, 0, 2, 2, 2, vec![0, 0, 0, 0]);
    let mut frame = vec![42u8; 4 * 4 * 4];
    World::blit_glyph(&mut frame, 4, 4, &g, 0, 3, [1, 2, 3]);
    assert_eq!(frame, vec![42u8; 64]);
}

#[test]
fn blit_glyph_ignores_bitmap_bytes_past_the_last_row() {
    let g = glyph(0, 0, 1, 1, 1, vec![5, 6, 7]);
    let mut frame = vec![0u8; 2 * 1 * 4];
    World::blit_glyph(&mut frame, 2, 1, &g, 0, 1, [1, 2, 3]);
    assert_eq!(frame, vec![1, 2, 3, 5, 0, 0, 0, 0]);
}

#[test]
fn blit_glyph_twice_equals_once() {
    let g = glyph(-1, 1, 3, 2, 3, vec![0, 4, 8, 15, 16, 0]);
    let mut once = vec![9u8; 4 * 4 * 4];
    World::blit_glyph(&mut once, 4, 4, &g, 1, 3, [7, 7, 7]);
    let mut twice = once.clone();
    World::blit_glyph(&mut twice, 4, 4, &g, 1, 3, [7, 7, 7]);
    assert_eq!(once, twice);
    assert_ne!(once, vec![9u8; 64]);
}

#[test]
fn draw_rect_off_the_screen_changes_nothing() {
    let w = world(4, 3);
    let mut frame = vec![1u8; 48];
    w.draw_rect(&mut frame, 4, 0, 5, 5, [0, 0, 0, 0]);
    w.draw_rect(&mut frame, 0, 3, 5, 5, [0, 0, 0, 0]);
    assert_eq!(frame, vec![1u8; 48]);
}
