use vstd::prelude::*;
use crate::convert::{
    assign_codes, generate_binary_font, generate_outcome, generate_within_limits,
    generation_within_limits, zip_codes, CharacterRegion,
};
use crate::convert::{blocks_of, glyphs_of};
use crate::encode::{canonical_image, concat_blocks, laid_out_entries, lemma_read_image};
use crate::format::{entry_at, parse_header, PixelFormat};
use crate::text::{char_count_mismatch_message, char_count_mismatch_text, chars_of};

verus! {

/// The PNG color type code of truecolor with alpha (RGBA).
pub const PNG_COLOR_RGBA: u8 = 6;

/// What the `png` crate (0.17) reports of a PNG file's header, read by
/// `Decoder::new(bytes).read_info()` then `Reader::info()`: width, height,
/// and the color type code; or the decoder's error, as the message
/// "Failed to decode PNG: <error>".
pub uninterp spec fn png_header_of(bytes: Seq<u8>) -> Result<(u32, u32, u8), Seq<char>>;

/// Reads a PNG header with `png::Decoder::new(..).read_info()` and
/// `png::Reader::info()`; the color type is given by its code
/// (`png::ColorType` is `repr(u8)` with the PNG codes as discriminants).
///
/// The contract claims only that the result is a function of the bytes
/// (named `png_header_of`).
#[verifier::external_body]
fn png_read_header(bytes: &[u8]) -> (r: Result<(u32, u32, u8), String>)
    ensures
        match r {
            Ok(v) => png_header_of(bytes@) == Ok::<(u32, u32, u8), Seq<char>>(v),
            Err(m) => png_header_of(bytes@) == Err::<(u32, u32, u8), Seq<char>>(m@),
        },
{
    match png::Decoder::new(bytes).read_info() {
        Ok(reader) => {
            let info = reader.info();
            Ok((info.width, info.height, info.color_type as u8))
        },
        Err(e) => Err(format!("Failed to decode PNG: {}", e)),
    }
}

/// What the `png` crate (0.17) decodes of a PNG file's first frame into a
/// zeroed buffer of `len` bytes with `Reader::next_frame`: the buffer, or the
/// error as "Failed to decode PNG: <error>" / "Failed to read PNG frame: <error>".
pub uninterp spec fn png_frame_of(bytes: Seq<u8>, len: usize) -> Result<Seq<u8>, Seq<char>>;

/// Decodes the first frame of a PNG file into a zeroed buffer of `len` bytes
/// with `png::Decoder::new(..).read_info()` and `png::Reader::next_frame`.
///
/// The contract claims that the result is a function of the bytes and the
/// buffer length (named `png_frame_of`), and that the buffer keeps its length
/// (`next_frame` writes into a slice).
#[verifier::external_body]
fn png_read_frame(bytes: &[u8], len: usize) -> (r: Result<Vec<u8>, String>)
    ensures
        match r {
            Ok(v) => png_frame_of(bytes@, len) == Ok::<Seq<u8>, Seq<char>>(v@) && v@.len() == len,
            Err(m) => png_frame_of(bytes@, len) == Err::<Seq<u8>, Seq<char>>(m@),
        },
{
    let mut buffer = vec![0u8; len];
    let mut reader = png::Decoder::new(bytes).read_info().map_err(
        |e| format!("Failed to decode PNG: {}", e),
    )?;
    reader.next_frame(&mut buffer).map_err(|e| format!("Failed to read PNG frame: {}", e))?;
    Ok(buffer)
}

/// An RGBA atlas: `width` × `height` pixels, 4 bytes each, row-major.
#[derive(Debug, Clone)]
pub struct RgbaImage {
    pub width: u32,
    pub height: u32,
    pub pixels: Vec<u8>,
}

/// The message for a PNG that is not RGBA.
pub open spec fn not_rgba_text() -> Seq<char> {
    "Only RGBA 8-bit PNG is supported"@
}

/// The message for a PNG whose pixel buffer would not fit in memory.
pub open spec fn too_large_text() -> Seq<char> {
    "Failed to read PNG frame: image too large"@
}

/// The pixel buffer length an atlas header calls for: `w * h * 4` bytes for
/// an RGBA image, or the error message.
pub open spec fn frame_len_outcome(w: u32, h: u32, color: u8) -> Result<usize, Seq<char>> {
    if color != PNG_COLOR_RGBA {
        Err(not_rgba_text())
    } else if w * h * 4 > usize::MAX {
        Err(too_large_text())
    } else {
        Ok((w * h * 4) as usize)
    }
}

/// What decoding a PNG atlas gives: the image, or the error message.
pub open spec fn decode_outcome(bytes: Seq<u8>) -> Result<(u32, u32, Seq<u8>), Seq<char>> {
    match png_header_of(bytes) {
        Err(m) => Err(m),
        Ok((w, h, color)) => match frame_len_outcome(w, h, color) {
            Err(m) => Err(m),
            Ok(len) => match png_frame_of(bytes, len) {
                Err(m) => Err(m),
                Ok(px) => Ok((w, h, px)),
            },
        },
    }
}

/// The pixel buffer length for an atlas of the given header: only RGBA
/// (color type code 6) is accepted, and `width * height * 4` must fit `usize`.
pub fn rgba_frame_len(width: u32, height: u32, color: u8) -> (r: Result<usize, String>)
    ensures
        match r {
            Ok(len) => frame_len_outcome(width, height, color) == Ok::<usize, Seq<char>>(len),
            Err(m) => frame_len_outcome(width, height, color) == Err::<usize, Seq<char>>(m@),
        },
{
    if color != PNG_COLOR_RGBA {
        let m = "Only RGBA 8-bit PNG is supported".to_owned();
        return Err(m);
    }
    let w = width as u128;
    let h = height as u128;
    proof {
        assert(w * h <= 0xffff_ffff * 0xffff_ffff) by (nonlinear_arith)
            requires
                w <= 0xffff_ffff,
                h <= 0xffff_ffff,
        ;
    }
    if w * h * 4 > usize::MAX as u128 {
        let m = "Failed to read PNG frame: image too large".to_owned();
        return Err(m);
    }
    proof {
        assert((width as usize) * (height as usize) <= usize::MAX) by (nonlinear_arith)
            requires
                width * height * 4 <= usize::MAX,
        ;
    }
    Ok((width as usize) * (height as usize) * 4)
}

/// Decode a PNG character atlas into RGBA pixels.
///
/// Only RGBA PNGs are accepted; the pixel buffer holds `width * height * 4`
/// bytes.
pub fn decode_rgba_png(png_bytes: &[u8]) -> (r: Result<RgbaImage, String>)
    ensures
        match r {
            Ok(img) => {
                &&& decode_outcome(png_bytes@) == Ok::<(u32, u32, Seq<u8>), Seq<char>>(
                    (img.width, img.height, img.pixels@),
                )
                &&& img.pixels@.len() == img.width * img.height * 4
            },
            Err(m) => decode_outcome(png_bytes@) == Err::<(u32, u32, Seq<u8>), Seq<char>>(m@),
        },
{
    let (width, height, color) = png_read_header(png_bytes)?;
    let len = rgba_frame_len(width, height, color)?;
    let pixels = png_read_frame(png_bytes, len)?;
    Ok(RgbaImage { width, height, pixels })
}

/// Pairs each region with the code at the same index.
pub open spec fn zipped(codes: Seq<u32>, regions: Seq<CharacterRegion>) -> Seq<(u32, CharacterRegion)> {
    Seq::new(regions.len(), |i: int| (codes[i], regions[i]))
}

/// The code points of the characters of a string.
pub open spec fn code_points_of(s: Seq<char>) -> Seq<u32> {
    Seq::new(s.len(), |i: int| s[i] as u32)
}

/// The code points `start, start + 1, ...`, one per region.
pub open spec fn sequential_codes(start: u32, n: int) -> Seq<u32> {
    Seq::new(n as nat, |i: int| (start + i) as u32)
}

/// The message when an atlas has no character regions.
pub open spec fn no_characters_text() -> Seq<char> {
    "No characters detected in PNG"@
}

/// How the regions of an atlas get their codes: from the characters of
/// `chars` in order (which must match the region count), or sequentially
/// from `start_code`; an atlas without regions is an error.
pub open spec fn codes_outcome(
    regions: Seq<CharacterRegion>,
    start_code: u32,
    chars: Option<Seq<char>>,
) -> Result<Seq<(u32, CharacterRegion)>, Seq<char>> {
    if regions.len() == 0 {
        Err(no_characters_text())
    } else {
        match chars {
            Some(s) => if s.len() != regions.len() {
                Err(char_count_mismatch_text(s.len() as usize, regions.len() as usize))
            } else {
                Ok(zipped(code_points_of(s), regions))
            },
            None => Ok(zipped(sequential_codes(start_code, regions.len() as int), regions)),
        }
    }
}

/// Assign codes to the detected regions of an atlas: the characters of
/// `chars` in order when given, else sequential codes from `start_code`.
pub fn atlas_codes(regions: &[CharacterRegion], start_code: u32, chars: Option<&str>) -> (r: Result<
    Vec<(u32, CharacterRegion)>,
    String,
>)
    requires
        chars is None ==> start_code + regions@.len() <= u32::MAX + 1,
    ensures
        match r {
            Ok(v) => codes_outcome(
                regions@,
                start_code,
                match chars {
                    Some(s) => Some(s@),
                    None => None,
                },
            ) == Ok::<Seq<(u32, CharacterRegion)>, Seq<char>>(v@),
            Err(m) => codes_outcome(
                regions@,
                start_code,
                match chars {
                    Some(s) => Some(s@),
                    None => None,
                },
            ) == Err::<Seq<(u32, CharacterRegion)>, Seq<char>>(m@),
        },
{
    if regions.len() == 0 {
        let m = "No characters detected in PNG".to_owned();
        return Err(m);
    }
    match chars {
        Some(chars_str) => {
            let cs = chars_of(chars_str);
            let mut code_points: Vec<u32> = Vec::new();
            let mut i: usize = 0;
            while i < cs.len()
                invariant
                    i <= cs@.len(),
                    code_points@.len() == i,
                    forall|k: int| 0 <= k < i ==> #[trigger] code_points@[k] == cs@[k] as u32,
                decreases cs@.len() - i,
            {
                code_points.push(cs[i] as u32);
                i = i + 1;
            }
            assert(code_points@ =~= code_points_of(chars_str@));
            if code_points.len() != regions.len() {
                return Err(char_count_mismatch_message(code_points.len(), regions.len()));
            }
            let v = zip_codes(regions, code_points.as_slice());
            assert(v@ =~= zipped(code_points_of(chars_str@), regions@));
            Ok(v)
        },
        None => {
            let v = assign_codes(regions, start_code);
            assert(v@ =~= zipped(sequential_codes(start_code, regions@.len() as int), regions@));
            Ok(v)
        },
    }
}

/// The argument lists describe `n > 0` characters, one entry each.
pub open spec fn atlas_shape_ok(codepoints: Seq<u32>, widths: Seq<u16>, positions: Seq<u32>) -> bool {
    &&& codepoints.len() > 0
    &&& widths.len() == codepoints.len()
    &&& positions.len() == codepoints.len()
}

/// Every character box lies within the atlas width.
pub open spec fn atlas_boxes_inside(widths: Seq<u16>, positions: Seq<u32>, width: u32) -> bool {
    forall|i: int| 0 <= i < positions.len() ==> #[trigger] positions[i] + widths[i] <= width
}

/// The coded regions the character boxes describe.
pub open spec fn atlas_coded(codepoints: Seq<u32>, widths: Seq<u16>, positions: Seq<u32>) -> Seq<
    (u32, CharacterRegion),
> {
    Seq::new(
        codepoints.len(),
        |i: int| (codepoints[i], CharacterRegion { x: positions[i], width: widths[i] }),
    )
}

/// What converting canvas pixels gives: no bytes for malformed arguments or a
/// box outside the atlas; otherwise the 8bpp font built from the boxes (or the
/// message of its error).
pub open spec fn convert_atlas_outcome(
    pixels: Seq<u8>,
    width: u32,
    height: u32,
    codepoints: Seq<u32>,
    widths: Seq<u16>,
    positions: Seq<u32>,
    baseline: u16,
) -> Result<Seq<u8>, Seq<char>> {
    if !atlas_shape_ok(codepoints, widths, positions) || !atlas_boxes_inside(widths, positions, width) {
        Ok(Seq::<u8>::empty())
    } else {
        generate_outcome(
            atlas_coded(codepoints, widths, positions),
            pixels,
            width as int,
            height as int,
            baseline,
            "8bpp"@,
        )
    }
}

/// Converting stays within machine arithmetic: the box end of every box
/// checked fits `u32`, and building the font stays within limits.
pub open spec fn convert_atlas_within_limits(
    pixels: Seq<u8>,
    width: u32,
    height: u32,
    codepoints: Seq<u32>,
    widths: Seq<u16>,
    positions: Seq<u32>,
    baseline: u16,
) -> bool {
    atlas_shape_ok(codepoints, widths, positions) ==> {
        &&& forall|i: int|
            0 <= i < positions.len() && (forall|j: int|
                0 <= j < i ==> #[trigger] positions[j] + widths[j] <= width) ==> #[trigger] positions[i]
                + widths[i] <= u32::MAX
        &&& atlas_boxes_inside(widths, positions, width) ==> generate_within_limits(
            atlas_coded(codepoints, widths, positions),
            pixels,
            width as int,
            height as int,
            baseline,
            "8bpp"@,
        )
    }
}

/// Converting canvas pixels builds one glyph per character box: when every
/// box lies inside the atlas, a successful conversion is a current-version
/// font file whose header has the atlas height, the given baseline and one
/// glyph per box, and whose glyph table entry `i` carries code point
/// `codepoints[i]` and width `char_widths[i]`, in the order given.
///
/// Stated for at most `u32::MAX` boxes (the header counts glyphs in a `u32`).
pub proof fn lemma_convert_atlas_glyphs(
    pixels: Seq<u8>,
    width: u32,
    height: u32,
    codepoints: Seq<u32>,
    char_widths: Seq<u16>,
    char_positions: Seq<u32>,
    baseline: u16,
    bytes: Seq<u8>,
)
    requires
        codepoints.len() > 0,
        char_widths.len() == codepoints.len(),
        char_positions.len() == codepoints.len(),
        codepoints.len() <= u32::MAX,
        forall|i: int|
            0 <= i < codepoints.len() ==> #[trigger] char_positions[i] + char_widths[i] <= width,
        convert_atlas_outcome(
            pixels,
            width,
            height,
            codepoints,
            char_widths,
            char_positions,
            baseline,
        ) == Ok::<Seq<u8>, Seq<char>>(bytes),
    ensures
        parse_header(bytes) matches Ok(h) && h.version == 2 && h.height == height as u16
            && h.baseline == baseline && h.char_count == codepoints.len() && h.pixel_format
            == PixelFormat::AntiAliased,
        forall|i: int|
            0 <= i < codepoints.len() ==> #[trigger] entry_at(bytes, 14, i).code == codepoints[i]
                && entry_at(bytes, 14, i).width == char_widths[i],
{
    reveal_strlit("8bpp");
    assert("8bpp"@ =~= seq!['8', 'b', 'p', 'p']);
    let coded = atlas_coded(codepoints, char_widths, char_positions);
    let pf = PixelFormat::AntiAliased;
    let glyphs = glyphs_of(coded);
    let blocks = blocks_of(coded, pixels, width as int, height as int, pf);
    let entries = laid_out_entries(glyphs, blocks, 14 + 10 * glyphs.len() as int);
    let data = concat_blocks(blocks, blocks.len() as int);
    assert(bytes == canonical_image(2, pf, height as u16, baseline, glyphs, blocks));
    reveal(canonical_image);
    lemma_read_image(2, pf, height as u16, baseline, entries, data);
    assert forall|i: int| 0 <= i < codepoints.len() implies #[trigger] entry_at(bytes, 14, i).code
        == codepoints[i] && entry_at(bytes, 14, i).width == char_widths[i] by {
        assert(entry_at(bytes, 14, i) == entries[i]);
    }
}

/// Convert RGBA canvas pixels and caller-measured character boxes (code
/// point, width, x position) to an 8bpp binary font.
///
/// Malformed arguments (no characters, lists of different lengths) or a box
/// that extends past the atlas width give no bytes; a failure to build the
/// font gives its message.
pub fn convert_atlas(
    pixels: &[u8],
    width: u32,
    height: u32,
    codepoints: &[u32],
    char_widths: &[u16],
    char_positions: &[u32],
    baseline: u16,
) -> (r: Result<Vec<u8>, String>)
    requires
        convert_atlas_within_limits(
            pixels@,
            width,
            height,
            codepoints@,
            char_widths@,
            char_positions@,
            baseline,
        ),
    ensures
        match r {
            Ok(b) => convert_atlas_outcome(
                pixels@,
                width,
                height,
                codepoints@,
                char_widths@,
                char_positions@,
                baseline,
            ) == Ok::<Seq<u8>, Seq<char>>(b@),
            Err(m) => convert_atlas_outcome(
                pixels@,
                width,
                height,
                codepoints@,
                char_widths@,
                char_positions@,
                baseline,
            ) == Err::<Seq<u8>, Seq<char>>(m@),
        },
{
    // Validate inputs
    let n = codepoints.len();
    if n == 0 || char_widths.len() == 0 || char_positions.len() == 0 {
        return Ok(Vec::new());
    }
    if char_widths.len() != n || char_positions.len() != n {
        return Ok(Vec::new());
    }
    // Build regions
    let mut regions: Vec<CharacterRegion> = Vec::new();
    let mut i: usize = 0;
    while i < n
        invariant
            n == codepoints@.len(),
            atlas_shape_ok(codepoints@, char_widths@, char_positions@),
            convert_atlas_within_limits(
                pixels@,
                width,
                height,
                codepoints@,
                char_widths@,
                char_positions@,
                baseline,
            ),
            i <= n,
            regions@.len() == i,
            forall|k: int|
                0 <= k < i ==> #[trigger] regions@[k] == (CharacterRegion {
                    x: char_positions@[k],
                    width: char_widths@[k],
                }),
            forall|j: int| 0 <= j < i ==> #[trigger] char_positions@[j] + char_widths@[j] <= width,
        decreases n - i,
    {
        let x = char_positions[i];
        let rw = char_widths[i] as u32;
        assert(char_positions@[i as int] + char_widths@[i as int] <= u32::MAX);
        if x + rw > width {
            return Ok(Vec::new());
        }
        regions.push(CharacterRegion { x, width: rw as u16 });
        i = i + 1;
    }
    let coded_regions = zip_codes(regions.as_slice(), codepoints);
    assert(coded_regions@ =~= atlas_coded(codepoints@, char_widths@, char_positions@));
    if coded_regions.len() == 0 {
        return Ok(Vec::new());
    }
    proof {
        reveal_strlit("8bpp");
    }
    generate_binary_font(coded_regions.as_slice(), pixels, width, height, baseline, "8bpp")
}

/// Whether `convert_atlas` may be called on these arguments: decides
/// `convert_atlas_within_limits`.
pub fn convert_atlas_limits_ok(
    pixels: &[u8],
    width: u32,
    height: u32,
    codepoints: &[u32],
    char_widths: &[u16],
    char_positions: &[u32],
    baseline: u16,
) -> (r: bool)
    ensures
        r == convert_atlas_within_limits(
            pixels@,
            width,
            height,
            codepoints@,
            char_widths@,
            char_positions@,
            baseline,
        ),
{
    let n = codepoints.len();
    if n == 0 || char_widths.len() != n || char_positions.len() != n {
        return true;
    }
    let mut regions: Vec<CharacterRegion> = Vec::new();
    let mut i: usize = 0;
    while i < n
        invariant
            n == codepoints@.len(),
            atlas_shape_ok(codepoints@, char_widths@, char_positions@),
            i <= n,
            regions@.len() == i,
            forall|k: int|
                0 <= k < i ==> #[trigger] regions@[k] == (CharacterRegion {
                    x: char_positions@[k],
                    width: char_widths@[k],
                }),
            forall|j: int| 0 <= j < i ==> #[trigger] char_positions@[j] + char_widths@[j] <= width,
        decreases n - i,
    {
        let end = char_positions[i] as u64 + char_widths[i] as u64;
        if end > u32::MAX as u64 {
            return false;
        }
        if end > width as u64 {
            // The conversion stops at this box, before building the font.
            proof {
                assert(!atlas_boxes_inside(char_widths@, char_positions@, width));
                assert forall|k: int|
                    0 <= k < char_positions@.len() && (forall|j: int|
                        0 <= j < k ==> #[trigger] char_positions@[j] + char_widths@[j] <= width)
                        implies #[trigger] char_positions@[k] + char_widths@[k] <= u32::MAX by {
                    if k > i {
                        assert(char_positions@[i as int] + char_widths@[i as int] <= width);
                    }
                }
            }
            return true;
        }
        regions.push(CharacterRegion { x: char_positions[i], width: char_widths[i] });
        i = i + 1;
    }
    let coded_regions = zip_codes(regions.as_slice(), codepoints);
    assert(coded_regions@ =~= atlas_coded(codepoints@, char_widths@, char_positions@));
    generation_within_limits(coded_regions.as_slice(), pixels, width, height, baseline, "8bpp")
}

} // verus!
