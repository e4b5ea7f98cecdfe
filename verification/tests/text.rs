use voxel_core::text::{
    glyph_pixel, GlyphCell, TextCursor, GLYPH_COUNT, GLYPH_HEIGHT, GLYPH_WIDTH, LINE_HEIGHT, LINE_ROOM,
};

fn layout(text: &str, row: usize, width: usize, height: usize) -> (Vec<GlyphCell>, usize) {
    let mut cursor = TextCursor::begin(row, height);
    let mut cells = Vec::new();
    for c in text.chars() {
        if let Some(cell) = cursor.place(c, width, height) {
            cells.push(cell);
        }
    }
    (cells, cursor.finish(height))
}

#[test]
fn glyph_metrics() {
    assert_eq!((GLYPH_WIDTH, GLYPH_HEIGHT, LINE_HEIGHT, LINE_ROOM, GLYPH_COUNT), (8, 16, 18, 20, 128));
}

#[test]
fn characters_advance_by_one_glyph() {
    let (cells, row) = layout("Hi!", 0, 640, 480);
    assert_eq!(
        cells,
        vec![
            GlyphCell { glyph: 72, x: 0, y: 0 },
            GlyphCell { glyph: 105, x: 8, y: 0 },
            GlyphCell { glyph: 33, x: 16, y: 0 },
        ]
    );
    assert_eq!(row, 18);
}

#[test]
fn line_feed_starts_a_new_line() {
    let (cells, row) = layout("a\nb", 36, 640, 480);
    assert_eq!(
        cells,
        vec![GlyphCell { glyph: 97, x: 0, y: 36 }, GlyphCell { glyph: 98, x: 0, y: 54 }]
    );
    assert_eq!(row, 72);
}

#[test]
fn long_line_wraps_at_the_right_edge() {
    let (cells, row) = layout("abcd", 0, 20, 480);
    assert_eq!(
        cells,
        vec![
            GlyphCell { glyph: 97, x: 0, y: 0 },
            GlyphCell { glyph: 98, x: 8, y: 0 },
            GlyphCell { glyph: 99, x: 0, y: 18 },
            GlyphCell { glyph: 100, x: 8, y: 18 },
        ]
    );
    assert_eq!(row, 36);
}

#[test]
fn message_restarts_at_the_top_without_room() {
    assert_eq!(TextCursor::begin(460, 480), TextCursor { x: 0, row: 0 });
    assert_eq!(TextCursor::begin(459, 480), TextCursor { x: 0, row: 459 });
    assert_eq!(TextCursor::begin(0, 0), TextCursor { x: 0, row: 0 });
    let (cells, row) = layout("x", 470, 640, 480);
    assert_eq!(cells, vec![GlyphCell { glyph: 120, x: 0, y: 0 }]);
    assert_eq!(row, 18);
}

#[test]
fn full_screen_wraps_to_the_top() {
    let (cells, row) = layout("a\nb\nc", 0, 640, 40);
    assert_eq!(
        cells,
        vec![
            GlyphCell { glyph: 97, x: 0, y: 0 },
            GlyphCell { glyph: 98, x: 0, y: 18 },
            GlyphCell { glyph: 99, x: 0, y: 36 },
        ]
    );
    assert_eq!(row, 54);
    let (cells, _) = layout("a\n\nb", 0, 640, 36);
    assert_eq!(cells[1], GlyphCell { glyph: 98, x: 0, y: 0 });
}

#[test]
fn glyph_index_keeps_seven_bits() {
    let (cells, _) = layout("\u{e9}\u{4e2d}\u{7f}\u{80}", 0, 640, 480);
    let glyphs: Vec<usize> = cells.iter().map(|c| c.glyph).collect();
    assert_eq!(glyphs, vec![0x69, 0x2d, 0x7f, 0]);
}

#[test]
fn narrow_screen_still_places_glyphs() {
    let (cells, _) = layout("ab", 0, 4, 480);
    assert_eq!(
        cells,
        vec![GlyphCell { glyph: 97, x: 0, y: 18 }, GlyphCell { glyph: 98, x: 0, y: 36 }]
    );
}

#[test]
fn leftmost_pixel_is_the_highest_bit() {
    assert!(glyph_pixel(0b1000_0000, 0));
    assert!(!glyph_pixel(0b1000_0000, 1));
    assert!(glyph_pixel(0b0000_0001, 7));
    assert!(!glyph_pixel(0b0000_0001, 0));
    let row = 0b0110_1001u8;
    let bits: Vec<bool> = (0..8).map(|col| glyph_pixel(row, col)).collect();
    assert_eq!(bits, vec![false, true, true, false, true, false, false, true]);
}
