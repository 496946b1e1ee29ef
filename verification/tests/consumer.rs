use font_maker::error::FontError;
use font_maker::format::{Font, PixelFormat, GLYPH_ENTRY_SIZE, HEADER_SIZE, MAGIC, VERSION};
use font_maker::render::{FontTextStyle, TextBaseline};

type Rgb = (u8, u8, u8);
const WHITE: Rgb = (255, 255, 255);
const BLACK: Rgb = (0, 0, 0);

/// A minimal valid AA font with one glyph (code=65 'A', width=5, height=10).
fn make_test_font_data() -> Vec<u8> {
    let mut buf = Vec::new();
    buf.extend_from_slice(&MAGIC);
    buf.push(VERSION);
    buf.push(PixelFormat::AntiAliased as u8);
    buf.extend_from_slice(&10u16.to_le_bytes()); // height
    buf.extend_from_slice(&1u32.to_le_bytes()); // char_count
    buf.extend_from_slice(&10u16.to_le_bytes()); // baseline
    buf.extend_from_slice(&65u32.to_le_bytes()); // code
    buf.extend_from_slice(&5u16.to_le_bytes()); // width
    let data_offset = (HEADER_SIZE + GLYPH_ENTRY_SIZE) as u32;
    buf.extend_from_slice(&data_offset.to_le_bytes());
    buf.extend_from_slice(&vec![255u8; 50]); // 5x10 alpha
    buf
}

/// A (code=65) solid, B (code=66) every other pixel, both 5 wide and 10 tall.
fn make_two_char_font() -> Vec<u8> {
    let mut buf = Vec::new();
    buf.extend_from_slice(&MAGIC);
    buf.push(VERSION);
    buf.push(PixelFormat::AntiAliased as u8);
    buf.extend_from_slice(&10u16.to_le_bytes()); // height
    buf.extend_from_slice(&2u32.to_le_bytes()); // char_count
    buf.extend_from_slice(&10u16.to_le_bytes()); // baseline
    buf.extend_from_slice(&65u32.to_le_bytes());
    buf.extend_from_slice(&5u16.to_le_bytes());
    let off_a = (HEADER_SIZE + 2 * GLYPH_ENTRY_SIZE) as u32;
    buf.extend_from_slice(&off_a.to_le_bytes());
    buf.extend_from_slice(&66u32.to_le_bytes());
    buf.extend_from_slice(&5u16.to_le_bytes());
    let off_b = off_a + 50;
    buf.extend_from_slice(&off_b.to_le_bytes());
    buf.extend_from_slice(&vec![255u8; 50]); // A
    for i in 0..50u8 {
        buf.push(if i % 2 == 0 { 255 } else { 0 }); // B pattern
    }
    buf
}

/// A canvas of `w` × `h` pixels, initially black.
struct Canvas {
    w: i32,
    h: i32,
    px: Vec<Rgb>,
}

impl Canvas {
    fn new(w: i32, h: i32) -> Self {
        Canvas { w, h, px: vec![BLACK; (w * h) as usize] }
    }

    fn get(&self, x: i32, y: i32) -> Rgb {
        self.px[(y * self.w + x) as usize]
    }

    fn set(&mut self, x: i32, y: i32, c: Rgb) {
        if x >= 0 && y >= 0 && x < self.w && y < self.h {
            self.px[(y * self.w + x) as usize] = c;
        }
    }
}

/// Draws `text` as the text renderer does; returns the next position.
fn draw_string(style: &FontTextStyle<Rgb>, text: &str, x: i32, y: i32, baseline: TextBaseline, canvas: &mut Canvas) -> (i32, i32) {
    let layout = style.layout_string(text, x, y, baseline);
    let bg = style.background_color.unwrap_or(BLACK);
    for g in &layout.glyphs {
        let mut pixels = style.glyph_pixels(&g.entry, g.x, g.y, style.text_color, bg);
        while let Some(p) = pixels.next_pixel() {
            canvas.set(p.x, p.y, p.color);
        }
    }
    (layout.next_x, layout.next_y)
}

#[test]
fn valid_binary_slice_loads() {
    let data = make_test_font_data();
    let font = Font::new(&data).expect("load font");
    assert_eq!(font.header.pixel_format, PixelFormat::AntiAliased);
}

#[test]
fn truncated_slice_returns_error() {
    // Header too short
    let short = &MAGIC[..3];
    assert!(matches!(Font::new(short), Err(FontError::TruncatedFile)));

    // Header present but glyph table truncated
    let mut buf = make_test_font_data();
    buf.truncate(HEADER_SIZE + GLYPH_ENTRY_SIZE - 1);
    assert!(matches!(Font::new(&buf), Err(FontError::TruncatedFile)));
}

#[test]
fn character_bounds_known_code() {
    let data = make_test_font_data();
    let font = Font::new(&data).unwrap();
    let entry = font.get_glyph_entry(0x41).expect("A exists");
    assert_eq!(entry.width, 5);
    assert_eq!(font.header.height, 10);
}

#[test]
fn character_bounds_unknown_code() {
    let data = make_test_font_data();
    let font = Font::new(&data).unwrap();
    assert!(font.get_glyph_entry(0x5A).is_none());
}

#[test]
fn glyph_data_returns_correct_slice() {
    let data = make_test_font_data();
    let font = Font::new(&data).unwrap();
    let entry = font.get_glyph_entry(0x41).unwrap();
    let pixel_data = font.glyph_data(&entry);
    assert_eq!(pixel_data.len(), 50); // 5x10 AA
    assert!(pixel_data.iter().all(|&v| v == 255));
}

#[test]
fn text_renderer_draws_single_char() {
    let font_data = make_two_char_font();
    let font = Font::new(&font_data).unwrap();
    let style = FontTextStyle::new(&font, WHITE);

    let mut display = Canvas::new(10, 10);
    let next = draw_string(&style, "A", 0, 10, TextBaseline::Bottom, &mut display);

    // Next position: x = 0 + width(5) + default_spacing(2) = 7
    assert_eq!(next.0, 7);

    // A is solid white, so 5x10 pixels should be white
    let mut white_count = 0;
    for x in 0..5i32 {
        for y in 0..10i32 {
            if display.get(x, y) == WHITE {
                white_count += 1;
            }
        }
    }
    assert_eq!(white_count, 50);
}

#[test]
fn text_renderer_draws_multiple_chars_with_spacing() {
    let font_data = make_two_char_font();
    let font = Font::new(&font_data).unwrap();
    let style = FontTextStyle::new(&font, WHITE);

    let mut display = Canvas::new(12, 10);
    let next = draw_string(&style, "AB", 0, 10, TextBaseline::Bottom, &mut display);

    // A at 0, B at 7, next after B = 7+5+2 = 14
    assert_eq!(next.0, 14);

    // Verify B pattern (every other pixel white)
    let mut white_in_b = 0;
    for x in 7..12i32 {
        for y in 0..10i32 {
            if display.get(x, y) == WHITE {
                white_in_b += 1;
            }
        }
    }
    // B has 25 white pixels out of 50 (every other)
    assert_eq!(white_in_b, 25);
}

#[test]
fn text_renderer_measure_string() {
    let font_data = make_two_char_font();
    let font = Font::new(&font_data).unwrap();
    let style = FontTextStyle::new(&font, WHITE);

    let metrics = style.measure_string("AB", 0, 10);

    // Width = A(5) + spacing(2) + B(5) = 12
    assert_eq!(metrics.width, 12);
    assert_eq!(metrics.height, 10);
}

#[test]
fn text_renderer_line_height() {
    let font_data = make_two_char_font();
    let font = Font::new(&font_data).unwrap();
    let style = FontTextStyle::new(&font, WHITE);

    assert_eq!(style.line_height(), 10);
}

#[test]
fn text_primitives_integration() {
    let font_data = make_two_char_font();
    let font = Font::new(&font_data).unwrap();
    let style = FontTextStyle::new(&font, WHITE);

    let mut display = Canvas::new(20, 10);
    // Bottom baseline at y=10 draws the text at y=0..10
    draw_string(&style, "A", 0, 10, TextBaseline::Bottom, &mut display);

    // A should be white
    for x in 0..5i32 {
        for y in 0..10i32 {
            assert_eq!(display.get(x, y), WHITE);
        }
    }
}
