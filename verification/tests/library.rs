use ascii_rust::atlas::{GlyphBmpData, RasterGlyph};
use ascii_rust::grayimg::GrayImage;
use ascii_rust::matcher::convert_grayimg_to_string;
use ascii_rust::render::string_to_grayimg;
use ascii_rust::AsciiArtError;

fn glyph(ch: char, height: u32, coverage: Vec<u8>) -> RasterGlyph {
    RasterGlyph { ch, glyph_index: 1, height, coverage }
}

/// An atlas with 8x8 cells holding ' ' as the all-255 bitmap and '#' as the
/// all-0 bitmap.
fn space_hash_atlas() -> GlyphBmpData {
    let glyphs = vec![
        glyph(' ', 8, vec![0u8; 64]),
        glyph('#', 8, vec![255u8; 64]),
    ];
    GlyphBmpData::new(8, &glyphs, 8).unwrap()
}

fn image(width: u32, height: u32, value: u8) -> GrayImage {
    let n: usize = (width as usize) * (height as usize);
    GrayImage::from_raw(width, height, vec![value; n]).unwrap()
}

#[test]
fn atlas_uniformity() {
    let glyphs = vec![
        glyph('a', 5, vec![10u8; 12]),
        glyph('b', 7, vec![200u8; 21]),
        glyph('c', 3, vec![0u8; 6]),
    ];
    let atlas = GlyphBmpData::new(4, &glyphs, 6).unwrap();
    assert_eq!(atlas.width, 4);
    // tallest glyph is 7, above the nominal size 6
    assert_eq!(atlas.height, 7);
    for (_, bmp) in &atlas.data {
        assert_eq!(bmp.len(), (atlas.width * atlas.height) as usize);
    }
}

#[test]
fn cell_height_floored_at_pixel_size() {
    let glyphs = vec![glyph('a', 3, vec![0u8; 9])];
    let atlas = GlyphBmpData::new(3, &glyphs, 8).unwrap();
    assert_eq!(atlas.height, 8);
}

#[test]
fn padding_appended_flat() {
    // A 2-wide, 2-tall coverage inside a 3x2 cell: the inverted bytes come
    // first, the background padding sits flat at the end of the buffer.
    let glyphs = vec![glyph('g', 2, vec![0u8, 10u8, 20u8, 30u8])];
    let atlas = GlyphBmpData::new(3, &glyphs, 2).unwrap();
    assert_eq!(atlas.width, 3);
    assert_eq!(atlas.height, 2);
    assert_eq!(atlas.data[0].1, vec![255u8, 245u8, 235u8, 225u8, 255u8, 255u8]);
}

#[test]
fn range_order_and_duplicates() {
    // An unsorted range with a duplicate: entries come out ascending by code
    // point and the later duplicate wins, as inserting into a sorted map.
    let glyphs = vec![
        glyph('b', 2, vec![1u8, 2u8, 3u8, 4u8]),
        glyph('a', 2, vec![9u8, 9u8, 9u8, 9u8]),
        glyph('b', 2, vec![5u8, 6u8, 7u8, 8u8]),
    ];
    let atlas = GlyphBmpData::new(2, &glyphs, 2).unwrap();
    assert_eq!(atlas.data.len(), 2);
    assert_eq!(atlas.data[0].0, 'a');
    assert_eq!(atlas.data[1].0, 'b');
    assert_eq!(atlas.data[0].1, vec![246u8, 246u8, 246u8, 246u8]);
    assert_eq!(atlas.data[1].1, vec![250u8, 249u8, 248u8, 247u8]);
}

#[test]
fn empty_range_error() {
    let glyphs: Vec<RasterGlyph> = Vec::new();
    let r = GlyphBmpData::new(8, &glyphs, 8);
    assert_eq!(r.err(), Some(AsciiArtError::EmptyRange));
}

#[test]
fn unrenderable_character_error() {
    let mut bad = glyph('?', 8, vec![0u8; 64]);
    bad.glyph_index = 0;
    let glyphs = vec![glyph('!', 8, vec![0u8; 64]), bad];
    let r = GlyphBmpData::new(8, &glyphs, 8);
    assert_eq!(r.err(), Some(AsciiArtError::UnrenderableCharacter));
}

#[test]
fn concrete_two_black_tiles() {
    let atlas = space_hash_atlas();
    let img = image(16, 8, 0);
    let text = convert_grayimg_to_string(&img, &atlas);
    assert_eq!(text, "##\n");
}

#[test]
fn matcher_determinism() {
    let atlas = space_hash_atlas();
    let mut pixels: Vec<u8> = Vec::new();
    for i in 0..(24usize * 16) {
        pixels.push((i * 37 % 256) as u8);
    }
    let img = GrayImage::from_raw(24, 16, pixels).unwrap();
    let first = convert_grayimg_to_string(&img, &atlas);
    let second = convert_grayimg_to_string(&img, &atlas);
    assert_eq!(first, second);
}

#[test]
fn tie_break_picks_lower_code_point() {
    // 'a' and 'b' get identical bitmaps: every tile must report 'a'.
    let glyphs = vec![
        glyph('a', 4, vec![128u8; 16]),
        glyph('b', 4, vec![128u8; 16]),
    ];
    let atlas = GlyphBmpData::new(4, &glyphs, 4).unwrap();
    let img = image(8, 4, 77);
    let text = convert_grayimg_to_string(&img, &atlas);
    assert_eq!(text, "aa\n");
}

#[test]
fn degenerate_atlas_matches_everything() {
    let glyphs = vec![glyph('x', 4, vec![9u8; 16])];
    let atlas = GlyphBmpData::new(4, &glyphs, 4).unwrap();
    let mut pixels: Vec<u8> = Vec::new();
    for i in 0..(12usize * 8) {
        pixels.push((i * 53 % 256) as u8);
    }
    let img = GrayImage::from_raw(12, 8, pixels).unwrap();
    let text = convert_grayimg_to_string(&img, &atlas);
    assert_eq!(text, "xxx\nxxx\n");
}

#[test]
fn round_trip_uniform_white() {
    // All-white image, exact multiples of the cell: every tile matches the
    // glyph of least ink, here ' ' with its all-255 bitmap.
    let atlas = space_hash_atlas();
    let img = image(16, 16, 255);
    let text = convert_grayimg_to_string(&img, &atlas);
    assert_eq!(text, "  \n  \n");
    let back = string_to_grayimg(&text, &atlas, (16, 16)).unwrap();
    assert_eq!(back.pixels, img.pixels);
}

#[test]
fn round_trip_black_image() {
    let atlas = space_hash_atlas();
    let img = image(16, 8, 0);
    let text = convert_grayimg_to_string(&img, &atlas);
    let back = string_to_grayimg(&text, &atlas, (16, 8)).unwrap();
    assert_eq!(back.pixels, img.pixels);
}

#[test]
fn cropped_edge_tile() {
    // 10 pixels wide with an 8-wide cell: the second tile is 2 pixels wide
    // and is compared over its own byte count only.
    let atlas = space_hash_atlas();
    let mut pixels: Vec<u8> = Vec::new();
    for _ in 0..8usize {
        for x in 0..10usize {
            pixels.push(if x < 8 { 0u8 } else { 255u8 });
        }
    }
    let img = GrayImage::from_raw(10, 8, pixels).unwrap();
    let text = convert_grayimg_to_string(&img, &atlas);
    assert_eq!(text, "# \n");
}

#[test]
fn render_size_invariant_short_text() {
    // Text too short to fill the grid: the canvas still has exactly the
    // requested size and the unfilled area keeps the black background.
    let atlas = space_hash_atlas();
    let out = string_to_grayimg("#", &atlas, (16, 16)).unwrap();
    assert_eq!(out.width, 16);
    assert_eq!(out.height, 16);
    assert_eq!(out.pixels.len(), 256);
    // first cell painted with '#' (all zero), identical to the background
    // here, so check a painted white cell instead
    let out2 = string_to_grayimg(" ", &atlas, (16, 16)).unwrap();
    for y in 0..16usize {
        for x in 0..16usize {
            let expect = if x < 8 && y < 8 { 255u8 } else { 0u8 };
            assert_eq!(out2.pixels[y * 16 + x], expect);
        }
    }
}

#[test]
fn render_size_invariant_long_text() {
    // More characters than grid cells: the excess is unused.
    let atlas = space_hash_atlas();
    let out = string_to_grayimg("    ####    ", &atlas, (8, 8)).unwrap();
    assert_eq!(out.width, 8);
    assert_eq!(out.height, 8);
    assert_eq!(out.pixels, vec![255u8; 64]);
}

#[test]
fn render_clips_at_canvas_edge() {
    // A 12x8 canvas with 8x8 cells: the second column's cell is clipped to
    // the 4 remaining pixel columns.
    let atlas = space_hash_atlas();
    let out = string_to_grayimg("  ", &atlas, (12, 8)).unwrap();
    assert_eq!(out.pixels, vec![255u8; 96]);
}

#[test]
fn unknown_glyph_error() {
    let atlas = space_hash_atlas();
    let r = string_to_grayimg("#z\n", &atlas, (16, 8));
    assert_eq!(r.err(), Some(AsciiArtError::UnknownGlyph));
}

#[test]
fn from_raw_rejects_wrong_length() {
    assert!(GrayImage::from_raw(4, 4, vec![0u8; 15]).is_none());
    assert!(GrayImage::from_raw(4, 4, vec![0u8; 16]).is_some());
}

#[test]
fn atlas_lookup_finds_entries() {
    let atlas = space_hash_atlas();
    assert_eq!(atlas.lookup(' '), Some(0));
    assert_eq!(atlas.lookup('#'), Some(1));
    assert_eq!(atlas.lookup('z'), None);
}
