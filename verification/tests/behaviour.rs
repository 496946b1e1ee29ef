use font_maker::atlas::{atlas_codes, convert_atlas, convert_atlas_limits_ok, decode_rgba_png, rgba_frame_len};
use font_maker::color::{parse_color, unpack_rgb};
use font_maker::convert::{
    assign_codes, detect_character_regions, generate_binary_font, generation_within_limits, CharacterRegion,
};
use font_maker::error::FontError;
use font_maker::format::{
    glyph_data_size, header_size, Font, PixelFormat, GLYPH_ENTRY_SIZE, HEADER_SIZE, HEADER_SIZE_V1, MAGIC,
};
use font_maker::render::{blend_channel, FontTextStyle, GlyphPixel, GlyphPixels, TextBaseline};

fn encode_png(w: u32, h: u32, color: png::ColorType, data: &[u8]) -> Vec<u8> {
    let mut out = Vec::new();
    {
        let mut enc = png::Encoder::new(&mut out, w, h);
        enc.set_color(color);
        enc.set_depth(png::BitDepth::Eight);
        let mut writer = enc.write_header().unwrap();
        writer.write_image_data(data).unwrap();
    }
    out
}

/// A v1 font (12-byte header) with the given AA glyphs of height `h`.
fn make_v1_font(h: u16, glyphs: &[(u32, u16, &[u8])]) -> Vec<u8> {
    let mut buf = Vec::new();
    let mut cursor = HEADER_SIZE_V1 + GLYPH_ENTRY_SIZE * glyphs.len();
    buf.extend_from_slice(&MAGIC);
    buf.push(1);
    buf.push(1);
    buf.extend_from_slice(&h.to_le_bytes());
    buf.extend_from_slice(&(glyphs.len() as u32).to_le_bytes());
    for &(code, width, data) in glyphs {
        buf.extend_from_slice(&code.to_le_bytes());
        buf.extend_from_slice(&width.to_le_bytes());
        buf.extend_from_slice(&(cursor as u32).to_le_bytes());
        cursor += data.len();
    }
    for &(_, _, data) in glyphs {
        buf.extend_from_slice(data);
    }
    buf
}

/// An atlas `w` × `h` whose alpha at (x, y) is `f(x, y)`.
fn atlas(w: u32, h: u32, f: impl Fn(u32, u32) -> u8) -> Vec<u8> {
    let mut pixels = vec![0u8; (w * h * 4) as usize];
    for y in 0..h {
        for x in 0..w {
            pixels[((y * w + x) * 4 + 3) as usize] = f(x, y);
        }
    }
    pixels
}

#[test]
fn header_size_per_version() {
    assert_eq!(header_size(1), 12);
    assert_eq!(header_size(2), 14);
    assert_eq!(header_size(7), 14);
}

#[test]
fn glyph_data_size_formulas() {
    assert_eq!(glyph_data_size(8, 5, PixelFormat::AntiAliased), 40);
    assert_eq!(glyph_data_size(3, 3, PixelFormat::Monochrome), 2);
    assert_eq!(glyph_data_size(65535, 65535, PixelFormat::AntiAliased), 65535 * 65535);
    assert_eq!(glyph_data_size(0, 9, PixelFormat::Monochrome), 0);
}

#[test]
fn pixel_format_codes() {
    assert_eq!(PixelFormat::try_from(0u8), Ok(PixelFormat::Monochrome));
    assert_eq!(PixelFormat::try_from(1u8), Ok(PixelFormat::AntiAliased));
    assert_eq!(PixelFormat::try_from(7u8), Err(FontError::InvalidPixelFormat(7)));
    assert_eq!(PixelFormat::AntiAliased.code(), 1);
}

#[test]
fn baseline_below_the_glyph_box_is_refused() {
    // v2 header: height 4, no glyphs, baseline 9.
    let mut data = Vec::new();
    data.extend_from_slice(&MAGIC);
    data.extend_from_slice(&[2, 1, 4, 0, 0, 0, 0, 0, 9, 0]);
    let err = FontError::InvalidBaseline { baseline: 9, height: 4 };
    assert_eq!(Font::new_fast(&data), Err(err.clone()));
    assert_eq!(Font::new(&data), Err(err));
    // The pixel format is checked first.
    let mut bad_format = data.clone();
    bad_format[5] = 3;
    assert_eq!(Font::new(&bad_format), Err(FontError::InvalidPixelFormat(3)));
    // A baseline at the bottom of the box is fine.
    data[12] = 4;
    assert_eq!(Font::new(&data).unwrap().header.baseline, 4);
}

#[test]
fn error_fields_are_exact() {
    // One 4x4 AA glyph at offset 24; file cut to 33 bytes.
    let mut data = Vec::new();
    data.extend_from_slice(&MAGIC);
    data.extend_from_slice(&[2, 1, 4, 0, 1, 0, 0, 0, 4, 0]);
    data.extend_from_slice(&[0x41, 0, 0, 0, 4, 0, 24, 0, 0, 0]);
    data.extend_from_slice(&[7u8; 16]);
    let mut cut = data.clone();
    cut.truncate(33);
    assert_eq!(Font::new(&cut), Err(FontError::TruncatedGlyphData { offset: 24, required: 16 }));
    let mut far = data.clone();
    far[20..24].copy_from_slice(&41u32.to_le_bytes());
    assert_eq!(Font::new(&far), Err(FontError::InvalidDataOffset { offset: 41, file_size: 40 }));
    // A table that does not fit: char_count 2 with a single entry.
    let mut short_table = data.clone();
    short_table[8] = 2;
    short_table.truncate(24);
    assert_eq!(Font::new(&short_table), Err(FontError::TruncatedFile));
    // A v2 header cut after the v1 size.
    assert_eq!(Font::new(&data[..13]), Err(FontError::TruncatedFile));
}

#[test]
fn first_bad_glyph_decides_the_error() {
    // Glyph 0's offset is past the end, glyph 1's data is cut: glyph 0 is reported.
    let mut data = Vec::new();
    data.extend_from_slice(&MAGIC);
    data.extend_from_slice(&[2, 1, 1, 0, 2, 0, 0, 0, 1, 0]);
    data.extend_from_slice(&[0x41, 0, 0, 0, 1, 0, 200, 0, 0, 0]);
    data.extend_from_slice(&[0x42, 0, 0, 0, 9, 0, 34, 0, 0, 0]);
    data.extend_from_slice(&[1u8; 3]);
    assert_eq!(Font::new(&data), Err(FontError::InvalidDataOffset { offset: 200, file_size: 37 }));
}

#[test]
fn duplicate_codes_find_the_first_entry() {
    let data = make_v1_font(1, &[(0x41, 1, &[1]), (0x41, 2, &[2, 2])]);
    let font = Font::new(&data).unwrap();
    assert_eq!(font.get_glyph_entry(0x41).unwrap().width, 1);
}

#[test]
fn to_bytes_keeps_a_v1_header() {
    let data = make_v1_font(2, &[(0x41, 1, &[9, 8]), (0x42, 2, &[1, 2, 3, 4])]);
    let font = Font::new(&data).unwrap();
    let bytes = font.to_bytes();
    assert_eq!(bytes, data);
    let again = Font::new(&bytes).unwrap();
    assert_eq!(again.header, font.header);
    assert_eq!(again.header.baseline, 2);
}

#[test]
fn to_bytes_lays_data_out_canonically() {
    // Both entries point at the same data: the rewrite stores it twice.
    let mut data = make_v1_font(1, &[(0x41, 2, &[5, 6]), (0x42, 2, &[7, 8])]);
    data[12 + 10 + 6] = 32; // entry B -> A's data
    let font = Font::new(&data).unwrap();
    let bytes = font.to_bytes();
    assert_eq!(&bytes[32..36], &[5, 6, 5, 6]);
    let again = Font::new(&bytes).unwrap();
    let b = again.get_glyph_entry(0x42).unwrap();
    assert_eq!(b.data_offset, 34);
    assert_eq!(again.glyph_data(&b), &[5, 6]);
}

#[test]
fn generated_font_reads_back_every_pixel() {
    // Two glyphs with distinct alphas per pixel.
    let pixels = atlas(7, 3, |x, y| if x == 3 { 0 } else { (1 + x + 10 * y) as u8 });
    let regions = detect_character_regions(&pixels, 7, 3);
    assert_eq!(regions, vec![CharacterRegion { x: 0, width: 3 }, CharacterRegion { x: 4, width: 3 }]);
    let coded = assign_codes(&regions, 0x30);
    let bytes = generate_binary_font(&coded, &pixels, 7, 3, 2, "8bpp").unwrap();
    let font = Font::new(&bytes).unwrap();
    assert_eq!(font.header.baseline, 2);
    assert_eq!(font.header.char_count, 2);
    for (code, rx) in [(0x30u32, 0u32), (0x31, 4)] {
        let e = font.get_glyph_entry(code).unwrap();
        let d = font.glyph_data(&e);
        for y in 0..3u32 {
            for c in 0..3u32 {
                assert_eq!(d[(y * 3 + c) as usize], (1 + rx + c + 10 * y) as u8);
            }
        }
    }
}

#[test]
fn mono_bits_are_packed_msb_first() {
    // 3x3 glyph: alpha > 128 sets a pixel; 128 itself does not.
    let alphas = [255u8, 128, 129, 0, 200, 0, 0, 0, 255];
    let pixels = atlas(3, 3, |x, y| alphas[(y * 3 + x) as usize]);
    let coded = vec![(0x41u32, CharacterRegion { x: 0, width: 3 })];
    let bytes = generate_binary_font(&coded, &pixels, 3, 3, 3, "1bpp").unwrap();
    let font = Font::new(&bytes).unwrap();
    let e = font.get_glyph_entry(0x41).unwrap();
    // bits: 1 0 1 0 1 0 0 0 | 1
    assert_eq!(font.glyph_data(&e), &[0b1010_1000, 0b1000_0000]);
}

#[test]
fn region_outside_the_image_reads_the_next_row() {
    // A region past the right edge picks pixels of the next row; the last row stops at the end.
    let pixels = atlas(2, 2, |x, y| (1 + x + 2 * y) as u8);
    let coded = vec![(0x41u32, CharacterRegion { x: 1, width: 2 })];
    let bytes = generate_binary_font(&coded, &pixels, 2, 2, 2, "8bpp").unwrap();
    // Glyph data: row 0 -> pixels (1,0),(0,1); row 1 -> (1,1) only.
    assert_eq!(&bytes[24..], &[2, 3, 4]);
}

#[test]
fn generate_error_messages() {
    let pixels = vec![0u8; 4 * 4 * 4];
    let coded = vec![(0x41u32, CharacterRegion { x: 0, width: 1 })];
    assert_eq!(
        generate_binary_font(&coded, &pixels, 4, 4, 0, "2bpp").unwrap_err(),
        "Invalid pixel format: 2bpp"
    );
    assert_eq!(
        generate_binary_font(&coded, &pixels, 4, 4, 5, "8bpp").unwrap_err(),
        "Baseline 5 is below the glyph box (height 4)"
    );
    assert_eq!(
        generate_binary_font(&coded, &pixels[..3], 4, 4, 4, "8bpp").unwrap_err(),
        "Pixel data length mismatch: got 3, expected 64"
    );
}

#[test]
fn generation_limits_check() {
    let pixels = vec![0u8; 4 * 4 * 4];
    let coded = vec![(0x41u32, CharacterRegion { x: 0, width: 4 })];
    assert!(generation_within_limits(&coded, &pixels, 4, 4, 4, "8bpp"));
    // A region whose end does not fit u32.
    let far = vec![(0x41u32, CharacterRegion { x: u32::MAX, width: 4 })];
    assert!(!generation_within_limits(&far, &pixels, 4, 4, 4, "8bpp"));
    // An unknown format never reaches the limits.
    assert!(generation_within_limits(&far, &pixels, 4, 4, 4, "bad"));
}

#[test]
fn long_runs_wrap_the_region_width() {
    // 65536 content columns make a region of width 0, which is left out.
    let w: u32 = 65536;
    let pixels = vec![255u8; (w * 4) as usize];
    assert!(detect_character_regions(&pixels, w, 1).is_empty());
    let w2: u32 = 65537;
    let pixels2 = vec![255u8; (w2 * 4) as usize];
    assert_eq!(detect_character_regions(&pixels2, w2, 1), vec![CharacterRegion { x: 0, width: 1 }]);
}

#[test]
fn short_buffer_counts_as_transparent() {
    // Only the first 2 pixels are in the buffer.
    let pixels = vec![255u8; 8];
    assert_eq!(detect_character_regions(&pixels, 4, 1), vec![CharacterRegion { x: 0, width: 2 }]);
}

#[test]
fn content_in_any_row_marks_the_column() {
    let pixels = atlas(3, 3, |x, y| if (x == 0 && y == 2) || (x == 2 && y == 0) { 1 } else { 0 });
    assert_eq!(
        detect_character_regions(&pixels, 3, 3),
        vec![CharacterRegion { x: 0, width: 1 }, CharacterRegion { x: 2, width: 1 }]
    );
}

#[test]
fn blend_formula() {
    assert_eq!(blend_channel(0, 255, 128), 128);
    assert_eq!(blend_channel(100, 200, 255), 200);
    assert_eq!(blend_channel(10, 20, 0), 10);
    assert_eq!(blend_channel(255, 0, 1), 254);
}

#[test]
fn aa_pixels_skip_zero_alpha_and_blend() {
    let data = [0u8, 255, 128, 0];
    let mut it = GlyphPixels::new(&data, 2, 2, 10, 20, (255, 255, 255), (0, 0, 0), PixelFormat::AntiAliased);
    assert_eq!(it.next_pixel(), Some(GlyphPixel { x: 11, y: 20, color: (255, 255, 255) }));
    assert_eq!(it.next_pixel(), Some(GlyphPixel { x: 10, y: 21, color: (128, 128, 128) }));
    assert_eq!(it.next_pixel(), None);
    assert_eq!(it.next_pixel(), None);
}

#[test]
fn glyph_pixels_end_for_good() {
    let data = [9u8, 0, 0, 3];
    let mut it = GlyphPixels::new(&data, 2, 2, 0, 0, (255, 255, 255), (0, 0, 0), PixelFormat::AntiAliased);
    let mut seen = Vec::new();
    for _ in 0..6 {
        seen.push(it.next_pixel());
    }
    assert_eq!(seen[0].map(|p| (p.x, p.y)), Some((0, 0)));
    assert_eq!(seen[1].map(|p| (p.x, p.y)), Some((1, 1)));
    assert!(seen[2..].iter().all(|p| p.is_none()));
}

#[test]
fn mono_pixels_follow_bits_and_stop_at_missing_bytes() {
    // 3x3 glyph but only one byte of data: bits 0b0100_0001.
    let data = [0b0100_0001u8];
    let mut it = GlyphPixels::new(&data, 3, 3, 0, 0, (1, 2, 3), (0, 0, 0), PixelFormat::Monochrome);
    assert_eq!(it.next_pixel(), Some(GlyphPixel { x: 1, y: 0, color: (1, 2, 3) }));
    assert_eq!(it.next_pixel(), Some(GlyphPixel { x: 1, y: 2, color: (1, 2, 3) }));
    // Pixel 8 needs a second byte: the glyph ends there.
    assert_eq!(it.next_pixel(), None);
}

#[test]
fn layout_skips_unknown_and_measure_drops_last_spacing() {
    let data = make_v1_font(4, &[(0x41, 3, &[0; 12]), (0x42, 1, &[0; 4])]);
    let font = Font::new(&data).unwrap();
    let style = FontTextStyle::new(&font, 0u8).char_spacing(5);
    // "A?B": A at 0, '?' skipped, B at 8, next at 14.
    let layout = style.layout_string("A?B", 0, 0, TextBaseline::Middle);
    assert_eq!(layout.glyphs.len(), 2);
    assert_eq!((layout.glyphs[0].x, layout.glyphs[1].x), (0, 8));
    assert_eq!(layout.glyphs[0].y, -2);
    assert_eq!(layout.next_x, 14);
    // Measured width = advance less one spacing when the text ends in a known char.
    assert_eq!(style.measure_string("A?B", 0, 0).width, 9);
    // Ending in an unknown char: the spacing after B counts.
    assert_eq!(style.measure_string("AB?", 0, 0).width, 14);
    assert_eq!(style.layout_string("AB?", 0, 0, TextBaseline::Top).next_x, 14);
    assert_eq!(style.whitespace_end(4, 3), 7);
}

#[test]
fn line_fit_checks_follow_i32() {
    let data = make_v1_font(4, &[(0x41, 3, &[0; 12])]);
    let font = Font::new(&data).unwrap();
    let style = FontTextStyle::new(&font, 0u8);
    // Advance of "AA" is 10, measured width 8.
    assert!(style.layout_fits_from("AA", i32::MAX - 10));
    assert!(!style.layout_fits_from("AA", i32::MAX - 9));
    assert!(style.layout_fits_from("??", i32::MAX));
    assert!(style.measure_fits_from("AA", i32::MAX - 8));
    assert!(!style.measure_fits_from("AA", i32::MAX - 7));
    // A spacing above i32::MAX wraps to a negative step.
    let wide = FontTextStyle::new(&font, 0u8).char_spacing(u32::MAX);
    assert!(wide.layout_fits_from("AA", 0));
    assert_eq!(wide.layout_string("AA", 0, 0, TextBaseline::Top).next_x, 4);
    assert!(!wide.measure_fits_from("AA", 0));
    // A width above i32::MAX (but within u32) wraps into the next position.
    let far = FontTextStyle::new(&font, 0u8).char_spacing(3_000_000_000);
    assert!(far.measure_fits_from("AA", 0));
    let m = far.measure_string("AA", 0, 0);
    assert_eq!(m.width, 3_000_000_006);
    assert_eq!(m.next_x, 3_000_000_006u32 as i32);
}

#[test]
fn style_builders_set_fields() {
    let data = make_v1_font(4, &[]);
    let font = Font::new(&data).unwrap();
    let style = FontTextStyle::new(&font, 7u8).background_color(9).char_spacing(3);
    assert_eq!(style.text_color, 7);
    assert_eq!(style.background_color, Some(9));
    assert_eq!(style.char_spacing, Some(3));
}

#[test]
fn color_arguments() {
    assert_eq!(parse_color("0xFF8000"), Some(0xFF8000));
    assert_eq!(parse_color("#00ff00"), Some(0x00FF00));
    assert_eq!(parse_color("255"), Some(255));
    assert_eq!(parse_color("+12"), Some(12));
    assert_eq!(parse_color("#+f"), Some(15));
    assert_eq!(parse_color("4294967295"), Some(u32::MAX));
    assert_eq!(parse_color("4294967296"), None);
    assert_eq!(parse_color("0x"), None);
    assert_eq!(parse_color("+"), None);
    assert_eq!(parse_color("abc"), None);
    assert_eq!(parse_color("0X10"), None);
    assert_eq!(parse_color(""), None);
}

#[test]
fn rgb_components() {
    assert_eq!(unpack_rgb(0x12_34_56), (0x12, 0x34, 0x56));
    assert_eq!(unpack_rgb(0xFF_00_00_01), (0, 0, 1));
}

#[test]
fn png_atlas_decodes() {
    let rgba: Vec<u8> = (0..2 * 3 * 4).map(|i| i as u8).collect();
    let png_bytes = encode_png(2, 3, png::ColorType::Rgba, &rgba);
    let img = decode_rgba_png(&png_bytes).unwrap();
    assert_eq!((img.width, img.height), (2, 3));
    assert_eq!(img.pixels, rgba);
}

#[test]
fn png_that_is_not_rgba_is_refused() {
    let rgb = vec![0u8; 2 * 2 * 3];
    let png_bytes = encode_png(2, 2, png::ColorType::Rgb, &rgb);
    assert_eq!(decode_rgba_png(&png_bytes).unwrap_err(), "Only RGBA 8-bit PNG is supported");
}

#[test]
fn frame_length_of_an_atlas_header() {
    assert_eq!(rgba_frame_len(2, 3, 6), Ok(24));
    assert_eq!(rgba_frame_len(0, 3, 6), Ok(0));
    assert_eq!(rgba_frame_len(2, 3, 2), Err("Only RGBA 8-bit PNG is supported".to_string()));
    if usize::BITS == 64 {
        assert_eq!(
            rgba_frame_len(u32::MAX, u32::MAX, 6),
            Err("Failed to read PNG frame: image too large".to_string())
        );
    }
}

#[test]
fn garbage_is_not_a_png() {
    let err = decode_rgba_png(b"not a png").unwrap_err();
    assert!(err.starts_with("Failed to decode PNG: "));
}

#[test]
fn atlas_code_assignment() {
    let regions = vec![CharacterRegion { x: 0, width: 2 }, CharacterRegion { x: 3, width: 1 }];
    assert_eq!(atlas_codes(&[], 0x20, None).unwrap_err(), "No characters detected in PNG");
    assert_eq!(
        atlas_codes(&regions, 0x20, Some("abc")).unwrap_err(),
        "Character count mismatch: --chars has 3 chars but 2 regions detected"
    );
    let coded = atlas_codes(&regions, 0x20, Some("é!")).unwrap();
    assert_eq!((coded[0].0, coded[1].0), (0xE9, 0x21));
    let seq = atlas_codes(&regions, 0x20, None).unwrap();
    assert_eq!((seq[0].0, seq[1].0), (0x20, 0x21));
}

#[test]
fn canvas_atlas_conversion() {
    let pixels = atlas(6, 2, |x, _| if x < 2 { 255 } else { 0 });
    let out = convert_atlas(&pixels, 6, 2, &[0x41, 0x42], &[2, 3], &[0, 3], 1).unwrap();
    let font = Font::new(&out).unwrap();
    assert_eq!(font.header.pixel_format, PixelFormat::AntiAliased);
    assert_eq!(font.header.baseline, 1);
    let a = font.get_glyph_entry(0x41).unwrap();
    assert_eq!(font.glyph_data(&a), &[255, 255, 255, 255]);
    // A box past the atlas, or lists of different lengths: no bytes.
    assert!(convert_atlas(&pixels, 6, 2, &[0x41], &[3], &[4], 1).unwrap().is_empty());
    assert!(convert_atlas(&pixels, 6, 2, &[0x41, 0x42], &[3], &[0], 1).unwrap().is_empty());
    assert!(convert_atlas(&pixels, 6, 2, &[], &[], &[], 1).unwrap().is_empty());
    // A baseline below the box is the font builder's error.
    assert!(convert_atlas(&pixels, 6, 2, &[0x41], &[2], &[0], 3).is_err());
    assert!(convert_atlas_limits_ok(&pixels, 6, 2, &[0x41], &[2], &[0], 1));
    assert!(!convert_atlas_limits_ok(&pixels, 6, 2, &[0x41], &[2], &[u32::MAX], 1));
    assert!(HEADER_SIZE == 14);
}
