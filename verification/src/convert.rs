use vstd::prelude::*;
use crate::encode::{
    append_bytes, block_start, canonical_image, concat_blocks, laid_out_entries, lemma_read_canonical,
    write_font,
};
use crate::error::FontError;
use crate::format::{
    entry_at, parse_font, spec_glyph_data_size, GlyphEntry, Header, PixelFormat, GLYPH_ENTRY_SIZE,
    HEADER_SIZE, MAGIC, VERSION,
};
use crate::text::{
    baseline_below_box_message, baseline_below_box_text, invalid_pixel_format_message,
    invalid_pixel_format_text, pixel_length_mismatch_message, pixel_length_mismatch_text,
    str_equals,
};

verus! {

/// A detected character region in the RGBA atlas.
#[derive(Debug, Clone, PartialEq, Eq)]
pub struct CharacterRegion {
    /// Starting x position in the atlas.
    pub x: u32,
    /// Width of the character in pixels.
    pub width: u16,
}

/// Byte index of the alpha sample of the pixel at column `x`, row `y`.
pub open spec fn alpha_index(width: int, x: int, y: int) -> int {
    (y * width + x) * 4 + 3
}

/// The pixel at column `x`, row `y` is in the buffer and not transparent.
pub open spec fn has_ink(pixels: Seq<u8>, width: int, x: int, y: int) -> bool {
    let i = alpha_index(width, x, y);
    0 <= i < pixels.len() && pixels[i] > 0
}

/// Column `x` has content: some pixel of it has alpha > 0.
pub open spec fn column_has_content(pixels: Seq<u8>, width: int, height: int, x: int) -> bool {
    exists|y: int| 0 <= y < height && #[trigger] has_ink(pixels, width, x, y)
}

/// The first column at or after `x` without content (or `width`).
pub open spec fn run_end(pixels: Seq<u8>, width: int, height: int, x: int) -> int
    decreases width - x,
{
    if x >= width || !column_has_content(pixels, width, height, x) {
        x
    } else {
        run_end(pixels, width, height, x + 1)
    }
}

/// Column `s` starts a run of content columns.
pub open spec fn is_run_start(pixels: Seq<u8>, width: int, height: int, s: int) -> bool {
    &&& 0 <= s < width
    &&& column_has_content(pixels, width, height, s)
    &&& (s == 0 || !column_has_content(pixels, width, height, s - 1))
}

/// The region width recorded for the run starting at `s`: its length in
/// columns, as a `u16` (so modulo 65536).
pub open spec fn run_width(pixels: Seq<u8>, width: int, height: int, s: int) -> int {
    (run_end(pixels, width, height, s) - s) % 65536
}

/// The regions are exactly the runs of content columns with a nonzero
/// recorded width, in increasing x.
pub open spec fn regions_of_atlas(
    pixels: Seq<u8>,
    width: int,
    height: int,
    regions: Seq<CharacterRegion>,
) -> bool {
    &&& forall|k: int|
        0 <= k < regions.len() ==> {
            &&& is_run_start(pixels, width, height, #[trigger] regions[k].x as int)
            &&& regions[k].width == run_width(pixels, width, height, regions[k].x as int)
            &&& regions[k].width != 0
        }
    &&& forall|k: int, l: int| 0 <= k < l < regions.len() ==> regions[k].x < regions[l].x
    &&& forall|s: int|
        is_run_start(pixels, width, height, s) && run_width(pixels, width, height, s) != 0
            ==> exists|k: int| 0 <= k < regions.len() && #[trigger] regions[k].x == s
}

/// A run from `x` reaches `run_end(x)`, with content on every column before it.
proof fn lemma_run_end(pixels: Seq<u8>, width: int, height: int, x: int)
    requires
        0 <= x <= width,
    ensures
        x <= run_end(pixels, width, height, x) <= width,
        run_end(pixels, width, height, x) == width || !column_has_content(
            pixels,
            width,
            height,
            run_end(pixels, width, height, x),
        ),
        forall|z: int|
            x <= z < run_end(pixels, width, height, x) ==> #[trigger] column_has_content(
                pixels,
                width,
                height,
                z,
            ),
    decreases width - x,
{
    if x < width && column_has_content(pixels, width, height, x) {
        lemma_run_end(pixels, width, height, x + 1);
    }
}

/// A run of content columns `[x, e)` that stops at `e` ends at `e`.
proof fn lemma_run_end_is(pixels: Seq<u8>, width: int, height: int, x: int, e: int)
    requires
        0 <= x <= e <= width,
        forall|z: int| x <= z < e ==> #[trigger] column_has_content(pixels, width, height, z),
        e == width || !column_has_content(pixels, width, height, e),
    ensures
        run_end(pixels, width, height, x) == e,
    decreases e - x,
{
    if x < e {
        assert(column_has_content(pixels, width, height, x));
        lemma_run_end_is(pixels, width, height, x + 1, e);
    }
}

/// Only the run containing `[s, e)` ends at `e`.
proof fn lemma_run_unique(pixels: Seq<u8>, width: int, height: int, s: int, t: int, e: int)
    requires
        is_run_start(pixels, width, height, s),
        is_run_start(pixels, width, height, t),
        s < e <= width,
        forall|z: int| s <= z < e ==> #[trigger] column_has_content(pixels, width, height, z),
        run_end(pixels, width, height, t) == e,
    ensures
        s == t,
{
    lemma_run_end(pixels, width, height, t);
    if t < s {
        assert(column_has_content(pixels, width, height, s - 1));
    } else if t > s {
        assert(column_has_content(pixels, width, height, t - 1));
    }
}

/// Reads whether column `x` has content.
fn column_content(pixels: &[u8], width: u32, height: u32, x: u32) -> (r: bool)
    requires
        x < width,
        4 * (width as int * height as int) <= 0x1_0000_0000,
    ensures
        r == column_has_content(pixels@, width as int, height as int, x as int),
{
    let mut has_content = false;
    let mut y: u32 = 0;
    while y < height && !has_content
        invariant
            x < width,
            4 * (width as int * height as int) <= 0x1_0000_0000,
            y <= height,
            has_content ==> column_has_content(pixels@, width as int, height as int, x as int),
            !has_content ==> forall|v: int|
                0 <= v < y ==> !#[trigger] has_ink(pixels@, width as int, x as int, v),
        decreases height - y + if has_content { 0int } else { 1int },
    {
        proof {
            assert((y as int * width as int + x as int) * 4 + 4 <= 4 * (width as int * height as int))
                by (nonlinear_arith)
                requires
                    y < height,
                    x < width,
            ;
        }
        let idx = ((y * width + x) * 4) as usize;
        if idx + 3 < pixels.len() && pixels[idx + 3] > 0 {
            assert(has_ink(pixels@, width as int, x as int, y as int));
            has_content = true;
        } else {
            y = y + 1;
        }
    }
    has_content
}

/// Scan an RGBA atlas (`width` × `height` pixels, 4 bytes each) for character
/// regions.
///
/// A column has "content" if any pixel in that column has alpha > 0; missing
/// pixels (past the end of the buffer) count as transparent. Contiguous
/// content columns are grouped into regions, sorted by x position. A region's
/// width is stored as a `u16`; a run whose length is a multiple of 65536 has
/// width 0 and is left out.
#[verifier::spinoff_prover]
pub fn detect_character_regions(pixels: &[u8], width: u32, height: u32) -> (regions: Vec<
    CharacterRegion,
>)
    requires
        4 * (width as int * height as int) <= 0x1_0000_0000,
    ensures
        regions_of_atlas(pixels@, width as int, height as int, regions@),
{
    let ghost p = pixels@;
    let ghost w = width as int;
    let ghost h = height as int;
    let mut regions: Vec<CharacterRegion> = Vec::new();
    let mut current_start: Option<u32> = None;
    let mut x: u32 = 0;
    while x < width
        invariant
            p == pixels@,
            w == width,
            h == height,
            4 * (width as int * height as int) <= 0x1_0000_0000,
            x <= width,
            forall|k: int|
                0 <= k < regions@.len() ==> {
                    &&& is_run_start(p, w, h, #[trigger] regions@[k].x as int)
                    &&& regions@[k].width == run_width(p, w, h, regions@[k].x as int)
                    &&& regions@[k].width != 0
                    &&& run_end(p, w, h, regions@[k].x as int) < x
                },
            forall|k: int, l: int| 0 <= k < l < regions@.len() ==> regions@[k].x < regions@[l].x,
            forall|s: int|
                0 <= s < x && is_run_start(p, w, h, s) && run_end(p, w, h, s) < x && run_width(
                    p,
                    w,
                    h,
                    s,
                ) != 0 ==> exists|k: int| 0 <= k < regions@.len() && #[trigger] regions@[k].x == s,
            match current_start {
                Some(s) => {
                    &&& s < x
                    &&& is_run_start(p, w, h, s as int)
                    &&& forall|z: int| s <= z < x ==> #[trigger] column_has_content(p, w, h, z)
                    &&& forall|k: int| 0 <= k < regions@.len() ==> #[trigger] regions@[k].x < s
                },
                None => x == 0 || !column_has_content(p, w, h, x - 1),
            },
        decreases width - x,
    {
        let has_content = column_content(pixels, width, height, x);
        let ghost old_regions = regions@;
        if has_content {
            if current_start.is_none() {
                proof {
                    assert forall|k: int| 0 <= k < regions@.len() implies #[trigger] regions@[k].x
                        < x by {
                        lemma_run_end(p, w, h, regions@[k].x as int);
                    }
                }
                current_start = Some(x);
            }
            proof {
                assert forall|s: int|
                    0 <= s < x + 1 && is_run_start(p, w, h, s) && run_end(p, w, h, s) < x + 1
                        && run_width(p, w, h, s) != 0 implies exists|k: int|
                    0 <= k < regions@.len() && #[trigger] regions@[k].x == s by {
                    lemma_run_end(p, w, h, s);
                }
            }
        } else {
            match current_start {
                Some(start) => {
                    proof {
                        lemma_run_end_is(p, w, h, start as int, x as int);
                        let d = (x - start) as u32;
                        assert(d as u16 == d % 65536) by (bit_vector);
                    }
                    let region_width = (x - start) as u16;
                    if region_width > 0 {
                        regions.push(CharacterRegion { x: start, width: region_width });
                        proof {
                            assert(regions@[regions@.len() - 1].x == start);
                        }
                    }
                    current_start = None;
                    proof {
                        assert forall|s: int|
                            0 <= s < x + 1 && is_run_start(p, w, h, s) && run_end(p, w, h, s) < x
                                + 1 && run_width(p, w, h, s) != 0 implies exists|k: int|
                            0 <= k < regions@.len() && #[trigger] regions@[k].x == s by {
                            lemma_run_end(p, w, h, s);
                            if run_end(p, w, h, s) == x {
                                lemma_run_unique(p, w, h, start as int, s, x as int);
                                assert(regions@[regions@.len() - 1].x == s);
                            } else {
                                let k = choose|k: int|
                                    0 <= k < old_regions.len() && #[trigger] old_regions[k].x == s;
                                assert(regions@[k] == old_regions[k]);
                            }
                        }
                    }
                },
                None => {
                    proof {
                        assert forall|s: int|
                            0 <= s < x + 1 && is_run_start(p, w, h, s) && run_end(p, w, h, s) < x
                                + 1 && run_width(p, w, h, s) != 0 implies exists|k: int|
                            0 <= k < regions@.len() && #[trigger] regions@[k].x == s by {
                            lemma_run_end(p, w, h, s);
                            if run_end(p, w, h, s) == x {
                                assert(column_has_content(p, w, h, x - 1));
                            }
                        }
                    }
                },
            }
        }
        x = x + 1;
    }
    // Close any open region at the end.
    let ghost before_close = regions@;
    match current_start {
        Some(start) => {
            proof {
                lemma_run_end_is(p, w, h, start as int, w);
                let d = (width - start) as u32;
                assert(d as u16 == d % 65536) by (bit_vector);
            }
            let region_width = (width - start) as u16;
            if region_width > 0 {
                regions.push(CharacterRegion { x: start, width: region_width });
                proof {
                    assert(regions@[regions@.len() - 1].x == start);
                }
            }
            proof {
                assert forall|s: int|
                    is_run_start(p, w, h, s) && run_width(p, w, h, s) != 0 implies exists|k: int|
                    0 <= k < regions@.len() && #[trigger] regions@[k].x == s by {
                    lemma_run_end(p, w, h, s);
                    if run_end(p, w, h, s) == w {
                        lemma_run_unique(p, w, h, start as int, s, w);
                        assert(regions@[regions@.len() - 1].x == s);
                    } else {
                        let k = choose|k: int|
                            0 <= k < before_close.len() && #[trigger] before_close[k].x == s;
                        assert(regions@[k] == before_close[k]);
                    }
                }
            }
        },
        None => {
            proof {
                assert forall|s: int|
                    is_run_start(p, w, h, s) && run_width(p, w, h, s) != 0 implies exists|k: int|
                    0 <= k < regions@.len() && #[trigger] regions@[k].x == s by {
                    lemma_run_end(p, w, h, s);
                    if run_end(p, w, h, s) == w {
                        assert(column_has_content(p, w, h, w - 1));
                    }
                }
            }
        },
    }
    regions
}

/// Zip character regions with caller-supplied code points, one per region in
/// order; empty if the two lengths differ.
pub fn zip_codes(regions: &[CharacterRegion], code_points: &[u32]) -> (r: Vec<(u32, CharacterRegion)>)
    ensures
        regions@.len() != code_points@.len() ==> r@.len() == 0,
        regions@.len() == code_points@.len() ==> {
            &&& r@.len() == regions@.len()
            &&& forall|i: int| 0 <= i < r@.len() ==> #[trigger] r@[i] == (code_points@[i], regions@[i])
        },
{
    let mut out: Vec<(u32, CharacterRegion)> = Vec::new();
    if regions.len() != code_points.len() {
        return out;
    }
    let mut i: usize = 0;
    while i < regions.len()
        invariant
            regions@.len() == code_points@.len(),
            i <= regions@.len(),
            out@.len() == i,
            forall|k: int| 0 <= k < i ==> #[trigger] out@[k] == (code_points@[k], regions@[k]),
        decreases regions@.len() - i,
    {
        let region = CharacterRegion { x: regions[i].x, width: regions[i].width };
        out.push((code_points[i], region));
        i = i + 1;
    }
    out
}

/// Assign sequential codes starting from `start_code`: region `i` gets
/// `start_code + i`.
pub fn assign_codes(regions: &[CharacterRegion], start_code: u32) -> (r: Vec<(u32, CharacterRegion)>)
    requires
        start_code + regions@.len() <= u32::MAX + 1,
    ensures
        r@.len() == regions@.len(),
        forall|i: int|
            0 <= i < r@.len() ==> #[trigger] r@[i] == ((start_code + i) as u32, regions@[i]),
{
    let mut codes: Vec<u32> = Vec::new();
    let mut i: usize = 0;
    while i < regions.len()
        invariant
            start_code + regions@.len() <= u32::MAX + 1,
            i <= regions@.len(),
            codes@.len() == i,
            forall|k: int| 0 <= k < i ==> #[trigger] codes@[k] == start_code + k,
        decreases regions@.len() - i,
    {
        codes.push(start_code + i as u32);
        i = i + 1;
    }
    zip_codes(regions, codes.as_slice())
}

/// Bit `k` (0 = most significant) of a byte.
pub open spec fn msb_bit(b: u8, k: int) -> bool {
    (b >> ((7 - k) as u8)) & 1u8 == 1u8
}

/// Pixel `i` is set among the first `limit` raw bits.
pub open spec fn bit_flag(bits: Seq<u8>, limit: int, i: int) -> bool {
    0 <= i < limit && i < bits.len() && bits[i] > 0
}

/// The byte holding pixels `8j..8j+8`, most significant bit first.
pub open spec fn packed_byte(bits: Seq<u8>, limit: int, j: int) -> u8 {
    (if bit_flag(bits, limit, 8 * j) { 128u8 } else { 0u8 }) | (if bit_flag(bits, limit, 8 * j + 1) {
        64u8
    } else {
        0u8
    }) | (if bit_flag(bits, limit, 8 * j + 2) { 32u8 } else { 0u8 }) | (if bit_flag(
        bits,
        limit,
        8 * j + 3,
    ) {
        16u8
    } else {
        0u8
    }) | (if bit_flag(bits, limit, 8 * j + 4) { 8u8 } else { 0u8 }) | (if bit_flag(
        bits,
        limit,
        8 * j + 5,
    ) {
        4u8
    } else {
        0u8
    }) | (if bit_flag(bits, limit, 8 * j + 6) { 2u8 } else { 0u8 }) | (if bit_flag(
        bits,
        limit,
        8 * j + 7,
    ) {
        1u8
    } else {
        0u8
    })
}

/// The first `total` raw bits packed 8 per byte, most significant bit first;
/// raw bits past the end of `bits` count as 0.
pub open spec fn pack_bits(bits: Seq<u8>, total: int) -> Seq<u8> {
    Seq::new(((total + 7) / 8) as nat, |j: int| packed_byte(bits, total, j))
}

proof fn lemma_byte_of_flags(c0: bool, c1: bool, c2: bool, c3: bool, c4: bool, c5: bool, c6: bool, c7: bool)
    ensures
        ({
            let v = (if c0 { 128u8 } else { 0u8 }) | (if c1 { 64u8 } else { 0u8 }) | (if c2 {
                32u8
            } else {
                0u8
            }) | (if c3 { 16u8 } else { 0u8 }) | (if c4 { 8u8 } else { 0u8 }) | (if c5 {
                4u8
            } else {
                0u8
            }) | (if c6 { 2u8 } else { 0u8 }) | (if c7 { 1u8 } else { 0u8 });
            &&& ((v >> 7u8) & 1u8 == 1u8) == c0
            &&& ((v >> 6u8) & 1u8 == 1u8) == c1
            &&& ((v >> 5u8) & 1u8 == 1u8) == c2
            &&& ((v >> 4u8) & 1u8 == 1u8) == c3
            &&& ((v >> 3u8) & 1u8 == 1u8) == c4
            &&& ((v >> 2u8) & 1u8 == 1u8) == c5
            &&& ((v >> 1u8) & 1u8 == 1u8) == c6
            &&& ((v >> 0u8) & 1u8 == 1u8) == c7
        }),
{
    let v = (if c0 { 128u8 } else { 0u8 }) | (if c1 { 64u8 } else { 0u8 }) | (if c2 {
        32u8
    } else {
        0u8
    }) | (if c3 { 16u8 } else { 0u8 }) | (if c4 { 8u8 } else { 0u8 }) | (if c5 {
        4u8
    } else {
        0u8
    }) | (if c6 { 2u8 } else { 0u8 }) | (if c7 { 1u8 } else { 0u8 });
    assert(((v >> 7u8) & 1u8 == 1u8) == c0 && ((v >> 6u8) & 1u8 == 1u8) == c1 && ((v >> 5u8)
        & 1u8 == 1u8) == c2 && ((v >> 4u8) & 1u8 == 1u8) == c3 && ((v >> 3u8) & 1u8 == 1u8)
        == c4 && ((v >> 2u8) & 1u8 == 1u8) == c5 && ((v >> 1u8) & 1u8 == 1u8) == c6 && ((v
        >> 0u8) & 1u8 == 1u8) == c7) by (bit_vector)
        requires
            v == (if c0 { 128u8 } else { 0u8 }) | (if c1 { 64u8 } else { 0u8 }) | (if c2 {
                32u8
            } else {
                0u8
            }) | (if c3 { 16u8 } else { 0u8 }) | (if c4 { 8u8 } else { 0u8 }) | (if c5 {
                4u8
            } else {
                0u8
            }) | (if c6 { 2u8 } else { 0u8 }) | (if c7 { 1u8 } else { 0u8 }),
    ;
}

/// The bits of a packed byte are its pixels' flags.
proof fn lemma_packed_byte_bits(bits: Seq<u8>, limit: int, j: int)
    ensures
        forall|k: int|
            0 <= k < 8 ==> msb_bit(packed_byte(bits, limit, j), k) == #[trigger] bit_flag(
                bits,
                limit,
                8 * j + k,
            ),
{
    lemma_byte_of_flags(
        bit_flag(bits, limit, 8 * j),
        bit_flag(bits, limit, 8 * j + 1),
        bit_flag(bits, limit, 8 * j + 2),
        bit_flag(bits, limit, 8 * j + 3),
        bit_flag(bits, limit, 8 * j + 4),
        bit_flag(bits, limit, 8 * j + 5),
        bit_flag(bits, limit, 8 * j + 6),
        bit_flag(bits, limit, 8 * j + 7),
    );
    assert forall|k: int| 0 <= k < 8 implies msb_bit(packed_byte(bits, limit, j), k)
        == #[trigger] bit_flag(bits, limit, 8 * j + k) by {
        if k == 0 {
        } else if k == 1 {
        } else if k == 2 {
        } else if k == 3 {
        } else if k == 4 {
        } else if k == 5 {
        } else if k == 6 {
        } else {
        }
    }
}

/// A byte is determined by its eight bits.
proof fn lemma_byte_ext(a: u8, b: u8)
    requires
        forall|k: int| 0 <= k < 8 ==> #[trigger] msb_bit(a, k) == msb_bit(b, k),
    ensures
        a == b,
{
    assert(msb_bit(a, 0) == msb_bit(b, 0));
    assert(msb_bit(a, 1) == msb_bit(b, 1));
    assert(msb_bit(a, 2) == msb_bit(b, 2));
    assert(msb_bit(a, 3) == msb_bit(b, 3));
    assert(msb_bit(a, 4) == msb_bit(b, 4));
    assert(msb_bit(a, 5) == msb_bit(b, 5));
    assert(msb_bit(a, 6) == msb_bit(b, 6));
    assert(msb_bit(a, 7) == msb_bit(b, 7));
    assert((((a >> 7u8) & 1u8 == 1u8) == ((b >> 7u8) & 1u8 == 1u8)) && (((a >> 6u8) & 1u8 == 1u8)
        == ((b >> 6u8) & 1u8 == 1u8)) && (((a >> 5u8) & 1u8 == 1u8) == ((b >> 5u8) & 1u8 == 1u8))
        && (((a >> 4u8) & 1u8 == 1u8) == ((b >> 4u8) & 1u8 == 1u8)) && (((a >> 3u8) & 1u8 == 1u8)
        == ((b >> 3u8) & 1u8 == 1u8)) && (((a >> 2u8) & 1u8 == 1u8) == ((b >> 2u8) & 1u8 == 1u8))
        && (((a >> 1u8) & 1u8 == 1u8) == ((b >> 1u8) & 1u8 == 1u8)) && (((a >> 0u8) & 1u8 == 1u8)
        == ((b >> 0u8) & 1u8 == 1u8)) ==> a == b) by (bit_vector);
}

/// Setting one bit of a byte leaves the others.
proof fn lemma_set_bit(v: u8, s: u8, t: u8)
    requires
        s < 8,
        t < 8,
    ensures
        ((v | (1u8 << s)) >> t) & 1u8 == if t == s {
            1u8
        } else {
            (v >> t) & 1u8
        },
{
    assert(((v | (1u8 << s)) >> t) & 1u8 == if t == s {
        1u8
    } else {
        (v >> t) & 1u8
    }) by (bit_vector)
        requires
            s < 8,
            t < 8,
    ;
}

/// Pack raw bit values (nonzero = set) into bytes for mono format: pixel `i`
/// goes to bit `7 - i % 8` of byte `i / 8`; only the first `total_pixels`
/// raw values are used.
fn pack_mono_bits(bits: &[u8], total_pixels: usize) -> (r: Vec<u8>)
    requires
        total_pixels + 7 <= usize::MAX,
    ensures
        r@ == pack_bits(bits@, total_pixels as int),
{
    let byte_count = (total_pixels + 7) / 8;
    let mut bytes: Vec<u8> = Vec::new();
    let mut j: usize = 0;
    while j < byte_count
        invariant
            j <= byte_count,
            bytes@.len() == j,
            forall|m: int| 0 <= m < j ==> #[trigger] bytes@[m] == 0u8,
        decreases byte_count - j,
    {
        bytes.push(0u8);
        j = j + 1;
    }
    proof {
        assert forall|m: int, k: int| 0 <= m < byte_count && 0 <= k < 8 implies !#[trigger] msb_bit(
            bytes@[m],
            k,
        ) by {
            let t = (7 - k) as u8;
            assert((0u8 >> t) & 1u8 == 0u8) by (bit_vector);
        }
    }
    let limit = if bits.len() < total_pixels {
        bits.len()
    } else {
        total_pixels
    };
    let mut i: usize = 0;
    while i < limit
        invariant
            limit <= bits@.len(),
            limit <= total_pixels,
            limit == bits@.len() || limit == total_pixels,
            total_pixels + 7 <= usize::MAX,
            byte_count == (total_pixels + 7) / 8,
            bytes@.len() == byte_count,
            i <= limit,
            forall|m: int, k: int|
                0 <= m < byte_count && 0 <= k < 8 ==> #[trigger] msb_bit(bytes@[m], k) == (8 * m
                    + k < i && bits@[8 * m + k] > 0),
        decreases limit - i,
    {
        if bits[i] > 0 {
            let m0 = i / 8;
            let sh: u8 = (7 - i % 8) as u8;
            let old_byte = bytes[m0];
            let new_byte = old_byte | (1u8 << sh);
            let ghost before = bytes@;
            bytes.set(m0, new_byte);
            proof {
                assert forall|m: int, k: int| 0 <= m < byte_count && 0 <= k < 8 implies #[trigger] msb_bit(
                    bytes@[m],
                    k,
                ) == (8 * m + k < i + 1 && bits@[8 * m + k] > 0) by {
                    if m == m0 {
                        let t = (7 - k) as u8;
                        lemma_set_bit(old_byte, sh, t);
                        assert(msb_bit(before[m], k) == (8 * m + k < i && bits@[8 * m + k] > 0));
                    } else {
                        assert(bytes@[m] == before[m]);
                    }
                }
            }
        }
        i = i + 1;
    }
    proof {
        assert forall|m: int| 0 <= m < bytes@.len() implies #[trigger] bytes@[m] == packed_byte(
            bits@,
            total_pixels as int,
            m,
        ) by {
            lemma_packed_byte_bits(bits@, total_pixels as int, m);
            assert forall|k: int| 0 <= k < 8 implies #[trigger] msb_bit(bytes@[m], k) == msb_bit(
                packed_byte(bits@, total_pixels as int, m),
                k,
            ) by {
                assert(bit_flag(bits@, total_pixels as int, 8 * m + k) == (8 * m + k < i && bits@[8
                    * m + k] > 0));
            }
            lemma_byte_ext(bytes@[m], packed_byte(bits@, total_pixels as int, m));
        }
        assert(bytes@ =~= pack_bits(bits@, total_pixels as int));
    }
    bytes
}

/// The value stored for a pixel of the given alpha: the alpha itself for
/// `AntiAliased`, 1 if alpha > 128 (else 0) for `Monochrome`.
pub open spec fn sample_value(alpha: u8, pixel_format: PixelFormat) -> u8 {
    match pixel_format {
        PixelFormat::AntiAliased => alpha,
        PixelFormat::Monochrome => if alpha > 128 {
            1u8
        } else {
            0u8
        },
    }
}

/// The samples of the first `k` columns from `rx` in row `y`; pixels past the
/// end of the buffer are skipped.
pub open spec fn row_samples(
    pixels: Seq<u8>,
    width: int,
    y: int,
    rx: int,
    k: int,
    pixel_format: PixelFormat,
) -> Seq<u8>
    decreases k,
{
    if k <= 0 {
        Seq::<u8>::empty()
    } else {
        let i = alpha_index(width, rx + k - 1, y);
        row_samples(pixels, width, y, rx, k - 1, pixel_format) + if 0 <= i < pixels.len() {
            seq![sample_value(pixels[i], pixel_format)]
        } else {
            Seq::<u8>::empty()
        }
    }
}

/// The samples of columns `rx..rx + rw` in the first `rows` rows, row by row.
pub open spec fn region_samples(
    pixels: Seq<u8>,
    width: int,
    rx: int,
    rw: int,
    rows: int,
    pixel_format: PixelFormat,
) -> Seq<u8>
    decreases rows,
{
    if rows <= 0 {
        Seq::<u8>::empty()
    } else {
        region_samples(pixels, width, rx, rw, rows - 1, pixel_format) + row_samples(
            pixels,
            width,
            rows - 1,
            rx,
            rw,
            pixel_format,
        )
    }
}

/// The glyph data block of a region: its alpha samples (8bpp), or its
/// thresholded samples packed 8 per byte for `rw * (height as u16)` pixels (1bpp).
pub open spec fn glyph_block(
    pixels: Seq<u8>,
    width: int,
    height: int,
    rx: int,
    rw: int,
    pixel_format: PixelFormat,
) -> Seq<u8> {
    let raw = region_samples(pixels, width, rx, rw, height, pixel_format);
    match pixel_format {
        PixelFormat::AntiAliased => raw,
        PixelFormat::Monochrome => pack_bits(raw, rw * ((height as u16) as int)),
    }
}

/// The (code, width) of each coded region.
pub open spec fn glyphs_of(coded: Seq<(u32, CharacterRegion)>) -> Seq<(u32, u16)> {
    Seq::new(coded.len(), |i: int| (coded[i].0, coded[i].1.width))
}

/// The glyph data block of each coded region.
pub open spec fn blocks_of(
    coded: Seq<(u32, CharacterRegion)>,
    pixels: Seq<u8>,
    width: int,
    height: int,
    pixel_format: PixelFormat,
) -> Seq<Seq<u8>> {
    Seq::new(
        coded.len(),
        |i: int|
            glyph_block(
                pixels,
                width,
                height,
                coded[i].1.x as int,
                coded[i].1.width as int,
                pixel_format,
            ),
    )
}

/// The pixel format a format name selects: "8bpp" or "1bpp".
pub open spec fn format_named(name: Seq<char>) -> Option<PixelFormat> {
    if name == seq!['8', 'b', 'p', 'p'] {
        Some(PixelFormat::AntiAliased)
    } else if name == seq!['1', 'b', 'p', 'p'] {
        Some(PixelFormat::Monochrome)
    } else {
        None
    }
}

/// The pixel indices of a region stay within `u32` (and `usize`) arithmetic.
pub open spec fn sampling_fits(width: int, height: int, rx: int, rw: int) -> bool {
    height == 0 || rw == 0 || {
        &&& rx + rw <= u32::MAX
        &&& ((height - 1) * width + rx + rw - 1) * 4 <= u32::MAX
        &&& ((height - 1) * width + rx + rw - 1) * 4 + 3 <= usize::MAX
    }
}

/// Building the font from these regions stays within machine arithmetic.
pub open spec fn generation_fits(
    coded: Seq<(u32, CharacterRegion)>,
    pixels: Seq<u8>,
    width: int,
    height: int,
    pixel_format: PixelFormat,
) -> bool {
    &&& forall|i: int|
        0 <= i < coded.len() ==> sampling_fits(
            width,
            height,
            #[trigger] coded[i].1.x as int,
            coded[i].1.width as int,
        )
    &&& 14 + 10 * coded.len() <= usize::MAX
    &&& block_start(
        blocks_of(coded, pixels, width, height, pixel_format),
        14 + 10 * coded.len() as int,
        coded.len() as int,
    ) <= usize::MAX
}

/// Building a font from an atlas stays within machine arithmetic: wherever
/// the format and baseline checks pass, the pixel count fits `usize`, and
/// wherever the length check passes too, `generation_fits` holds.
pub open spec fn generate_within_limits(
    coded: Seq<(u32, CharacterRegion)>,
    pixels: Seq<u8>,
    width: int,
    height: int,
    baseline: u16,
    format_name: Seq<char>,
) -> bool {
    format_named(format_name) matches Some(pf) ==> baseline > (height as u16) || {
        &&& width * height * 4 <= usize::MAX
        &&& pixels.len() == width * height * 4 ==> generation_fits(
            coded,
            pixels,
            width,
            height,
            pf,
        )
    }
}

/// What building a font from an atlas gives: the error message, or the file.
pub open spec fn generate_outcome(
    coded: Seq<(u32, CharacterRegion)>,
    pixels: Seq<u8>,
    width: int,
    height: int,
    baseline: u16,
    format_name: Seq<char>,
) -> Result<Seq<u8>, Seq<char>> {
    match format_named(format_name) {
        None => Err(invalid_pixel_format_text(format_name)),
        Some(pixel_format) => if baseline > (height as u16) {
            Err(baseline_below_box_text(baseline, height as u16))
        } else if pixels.len() != width * height * 4 {
            Err(pixel_length_mismatch_text(pixels.len() as usize, (width * height * 4) as usize))
        } else {
            Ok(
                canonical_image(
                    2,
                    pixel_format,
                    height as u16,
                    baseline,
                    glyphs_of(coded),
                    blocks_of(coded, pixels, width, height, pixel_format),
                ),
            )
        },
    }
}

/// Collects the samples of one region, row by row.
fn extract_samples(
    pixels: &[u8],
    width: u32,
    height: u32,
    rx: u32,
    rw: u16,
    pixel_format: PixelFormat,
) -> (raw: Vec<u8>)
    requires
        sampling_fits(width as int, height as int, rx as int, rw as int),
    ensures
        raw@ == region_samples(pixels@, width as int, rx as int, rw as int, height as int, pixel_format),
{
    let mut raw: Vec<u8> = Vec::new();
    let mut y: u32 = 0;
    while y < height
        invariant
            sampling_fits(width as int, height as int, rx as int, rw as int),
            y <= height,
            raw@ == region_samples(pixels@, width as int, rx as int, rw as int, y as int, pixel_format),
        decreases height - y,
    {
        let ghost before = raw@;
        let end = rx + rw as u32;
        let mut x = rx;
        while x < end
            invariant
                sampling_fits(width as int, height as int, rx as int, rw as int),
                y < height,
                end == rx + rw,
                rx <= x <= end,
                raw@ == before + row_samples(
                    pixels@,
                    width as int,
                    y as int,
                    rx as int,
                    x - rx,
                    pixel_format,
                ),
            decreases end - x,
        {
            proof {
                assert((y as int * width as int + x as int) * 4 <= ((height as int - 1) * width as int
                    + rx as int + rw as int - 1) * 4) by (nonlinear_arith)
                    requires
                        y < height,
                        x < rx + rw,
                ;
            }
            let idx = ((y * width + x) * 4) as usize;
            let ghost samples_before = raw@;
            if idx + 3 < pixels.len() {
                let alpha = pixels[idx + 3];
                match pixel_format {
                    PixelFormat::AntiAliased => raw.push(alpha),
                    PixelFormat::Monochrome => raw.push(
                        if alpha > 128 {
                            1
                        } else {
                            0
                        },
                    ),
                }
            }
            x = x + 1;
            proof {
                assert(alpha_index(width as int, rx + (x - rx) - 1, y as int) == idx + 3);
                assert(raw@ =~= before + row_samples(
                    pixels@,
                    width as int,
                    y as int,
                    rx as int,
                    x - rx,
                    pixel_format,
                ));
            }
        }
        y = y + 1;
        assert(raw@ =~= region_samples(pixels@, width as int, rx as int, rw as int, y as int, pixel_format));
    }
    raw
}

/// Generate binary font bytes (current version, with `baseline`) from coded
/// regions of an RGBA atlas.
///
/// `pixel_format` is "8bpp" or "1bpp". Fails with a message if the format name
/// is unknown, if `baseline` is below the glyph box (`height as u16`), or if
/// `pixels` is not `width * height * 4` bytes long, in that order of checks.
/// Glyph data blocks are laid out in region order right after the table.
pub fn generate_binary_font(
    coded_regions: &[(u32, CharacterRegion)],
    pixels: &[u8],
    width: u32,
    height: u32,
    baseline: u16,
    pixel_format: &str,
) -> (r: Result<Vec<u8>, String>)
    requires
        generate_within_limits(
            coded_regions@,
            pixels@,
            width as int,
            height as int,
            baseline,
            pixel_format@,
        ),
    ensures
        match r {
            Ok(bytes) => generate_outcome(
                coded_regions@,
                pixels@,
                width as int,
                height as int,
                baseline,
                pixel_format@,
            ) == Ok::<Seq<u8>, Seq<char>>(bytes@),
            Err(m) => generate_outcome(
                coded_regions@,
                pixels@,
                width as int,
                height as int,
                baseline,
                pixel_format@,
            ) == Err::<Seq<u8>, Seq<char>>(m@),
        },
{
    proof {
        reveal_strlit("8bpp");
        reveal_strlit("1bpp");
    }
    let pf = if str_equals(pixel_format, &['8', 'b', 'p', 'p']) {
        PixelFormat::AntiAliased
    } else if str_equals(pixel_format, &['1', 'b', 'p', 'p']) {
        PixelFormat::Monochrome
    } else {
        return Err(invalid_pixel_format_message(pixel_format));
    };
    assert(format_named(pixel_format@) == Some(pf));
    let h = height as u16;
    if baseline > h {
        return Err(baseline_below_box_message(baseline, h));
    }
    proof {
        assert(width as int * height as int * 4 <= usize::MAX);
    }
    let expected_len = (width as usize) * (height as usize) * 4;
    if pixels.len() != expected_len {
        return Err(pixel_length_mismatch_message(pixels.len(), expected_len));
    }
    let ghost coded = coded_regions@;
    let ghost blocks = blocks_of(coded, pixels@, width as int, height as int, pf);
    let ghost glyph_list = glyphs_of(coded);
    let n = coded_regions.len();
    let start = HEADER_SIZE + GLYPH_ENTRY_SIZE * n;
    // Build glyph entries and extract pixel data.
    let mut glyphs: Vec<GlyphEntry> = Vec::new();
    let mut glyph_data: Vec<u8> = Vec::new();
    let mut data_cursor = start;
    let mut i: usize = 0;
    while i < n
        invariant
            n == coded.len(),
            coded == coded_regions@,
            generation_fits(coded, pixels@, width as int, height as int, pf),
            blocks == blocks_of(coded, pixels@, width as int, height as int, pf),
            glyph_list == glyphs_of(coded),
            start == 14 + 10 * n,
            h == height as u16,
            i <= n,
            data_cursor == block_start(blocks, start as int, i as int),
            glyphs@.len() == i,
            forall|k: int|
                0 <= k < i ==> #[trigger] glyphs@[k] == (GlyphEntry {
                    code: glyph_list[k].0,
                    width: glyph_list[k].1,
                    data_offset: block_start(blocks, start as int, k) as u32,
                }),
            glyph_data@ == concat_blocks(blocks, i as int),
        decreases n - i,
    {
        let code = coded_regions[i].0;
        let rx = coded_regions[i].1.x;
        let rw = coded_regions[i].1.width;
        proof {
            assert(sampling_fits(width as int, height as int, coded[i as int].1.x as int, coded[i as int].1.width as int));
            lemma_block_start_mono(blocks, start as int, i as int + 1, n as int);
        }
        let raw_bits = extract_samples(pixels, width, height, rx, rw, pf);
        let final_data = match pf {
            PixelFormat::Monochrome => {
                proof {
                    assert(rw as int * h as int <= 65535 * 65535) by (nonlinear_arith)
                        requires
                            rw <= 65535,
                            h <= 65535,
                    ;
                }
                pack_mono_bits(raw_bits.as_slice(), rw as usize * h as usize)
            },
            PixelFormat::AntiAliased => raw_bits,
        };
        assert(final_data@ == blocks[i as int]);
        glyphs.push(GlyphEntry { code, width: rw, data_offset: data_cursor as u32 });
        append_bytes(&mut glyph_data, final_data.as_slice());
        data_cursor = data_cursor + final_data.len();
        i = i + 1;
    }
    assert(glyphs@ =~= laid_out_entries(glyph_list, blocks, start as int));
    proof {
        reveal(canonical_image);
    }
    // Build the full binary font.
    Ok(write_font(VERSION, pf, h, baseline, &glyphs, &glyph_data))
}

/// Block starts only grow.
proof fn lemma_block_start_mono(blocks: Seq<Seq<u8>>, start: int, i: int, j: int)
    requires
        0 <= i <= j,
    ensures
        block_start(blocks, start, i) <= block_start(blocks, start, j),
    decreases j - i,
{
    if i < j {
        lemma_block_start_mono(blocks, start, i, j - 1);
    }
}

/// How glyph data stores the pixel at row `y`, column `c` of a glyph `rw`
/// pixels wide: its alpha byte (8bpp), or a set bit iff alpha > 128 (1bpp).
pub open spec fn stores_pixel(
    block: Seq<u8>,
    pixel_format: PixelFormat,
    rw: int,
    y: int,
    c: int,
    alpha: u8,
) -> bool {
    let k = y * rw + c;
    match pixel_format {
        PixelFormat::AntiAliased => block[k] == alpha,
        PixelFormat::Monochrome => msb_bit(block[k / 8], k % 8) == (alpha > 128),
    }
}

/// The samples of a row inside the image: one per column, in order.
proof fn lemma_row_samples(
    pixels: Seq<u8>,
    width: int,
    height: int,
    y: int,
    rx: int,
    k: int,
    pixel_format: PixelFormat,
)
    requires
        pixels.len() == width * height * 4,
        0 <= y < height,
        0 <= rx,
        0 <= k,
        rx + k <= width,
    ensures
        row_samples(pixels, width, y, rx, k, pixel_format).len() == k,
        forall|c: int|
            0 <= c < k ==> #[trigger] row_samples(pixels, width, y, rx, k, pixel_format)[c]
                == sample_value(pixels[alpha_index(width, rx + c, y)], pixel_format),
    decreases k,
{
    if k > 0 {
        lemma_row_samples(pixels, width, height, y, rx, k - 1, pixel_format);
        let i = alpha_index(width, rx + k - 1, y);
        assert(0 <= i < pixels.len()) by (nonlinear_arith)
            requires
                i == (y * width + rx + k - 1) * 4 + 3,
                pixels.len() == width * height * 4,
                0 <= y < height,
                0 <= rx,
                rx + k <= width,
                k > 0,
        ;
        let prev = row_samples(pixels, width, y, rx, k - 1, pixel_format);
        let cur = row_samples(pixels, width, y, rx, k, pixel_format);
        assert(cur == prev + seq![sample_value(pixels[i], pixel_format)]);
    }
}

/// The samples of a region inside the image: `rw` per row, row by row.
proof fn lemma_region_samples(
    pixels: Seq<u8>,
    width: int,
    height: int,
    rx: int,
    rw: int,
    rows: int,
    pixel_format: PixelFormat,
)
    requires
        pixels.len() == width * height * 4,
        0 <= rows <= height,
        0 <= rx,
        0 <= rw,
        rx + rw <= width,
    ensures
        region_samples(pixels, width, rx, rw, rows, pixel_format).len() == rw * rows,
        forall|y: int, c: int|
            0 <= y < rows && 0 <= c < rw ==> #[trigger] region_samples(
                pixels,
                width,
                rx,
                rw,
                rows,
                pixel_format,
            )[y * rw + c] == sample_value(pixels[alpha_index(width, rx + c, y)], pixel_format),
    decreases rows,
{
    if rows > 0 {
        lemma_region_samples(pixels, width, height, rx, rw, rows - 1, pixel_format);
        lemma_row_samples(pixels, width, height, rows - 1, rx, rw, pixel_format);
        let prev = region_samples(pixels, width, rx, rw, rows - 1, pixel_format);
        let row = row_samples(pixels, width, rows - 1, rx, rw, pixel_format);
        let cur = region_samples(pixels, width, rx, rw, rows, pixel_format);
        assert(rw * rows == rw * (rows - 1) + rw) by (nonlinear_arith);
        assert forall|y: int, c: int| 0 <= y < rows && 0 <= c < rw implies #[trigger] cur[y * rw + c]
            == sample_value(pixels[alpha_index(width, rx + c, y)], pixel_format) by {
            if y < rows - 1 {
                assert(y * rw + c < rw * (rows - 1)) by (nonlinear_arith)
                    requires
                        0 <= y < rows - 1,
                        0 <= c < rw,
                ;
                assert(cur[y * rw + c] == prev[y * rw + c]);
            } else {
                assert(y * rw + c == rw * (rows - 1) + c) by (nonlinear_arith)
                    requires
                        y == rows - 1,
                ;
                assert(cur[y * rw + c] == row[c]);
            }
        }
    }
}

/// The data block built for a region inside the image has its glyph's data
/// size and stores every pixel of the region.
proof fn lemma_glyph_block(
    pixels: Seq<u8>,
    width: int,
    height: int,
    rx: int,
    rw: int,
    pixel_format: PixelFormat,
)
    requires
        pixels.len() == width * height * 4,
        0 <= height <= 65535,
        0 <= rx,
        0 <= rw,
        rx + rw <= width,
    ensures
        glyph_block(pixels, width, height, rx, rw, pixel_format).len() == spec_glyph_data_size(
            rw,
            height,
            pixel_format,
        ),
        forall|y: int, c: int|
            0 <= y < height && 0 <= c < rw ==> #[trigger] stores_pixel(
                glyph_block(pixels, width, height, rx, rw, pixel_format),
                pixel_format,
                rw,
                y,
                c,
                pixels[alpha_index(width, rx + c, y)],
            ),
{
    lemma_region_samples(pixels, width, height, rx, rw, height, pixel_format);
    let raw = region_samples(pixels, width, rx, rw, height, pixel_format);
    assert((height as u16) as int == height);
    match pixel_format {
        PixelFormat::AntiAliased => {},
        PixelFormat::Monochrome => {
            let total = rw * height;
            assert forall|y: int, c: int| 0 <= y < height && 0 <= c < rw implies #[trigger] stores_pixel(
                glyph_block(pixels, width, height, rx, rw, pixel_format),
                pixel_format,
                rw,
                y,
                c,
                pixels[alpha_index(width, rx + c, y)],
            ) by {
                let k = y * rw + c;
                assert(0 <= k < total) by (nonlinear_arith)
                    requires
                        k == y * rw + c,
                        total == rw * height,
                        0 <= y < height,
                        0 <= c < rw,
                ;
                let j = k / 8;
                assert(0 <= j < (total + 7) / 8);
                lemma_packed_byte_bits(raw, total, j);
                assert(8 * j + k % 8 == k);
                assert(bit_flag(raw, total, 8 * j + k % 8) == (raw[k] > 0));
            }
        },
    }
}

/// A font built from an atlas reads back: it parses with the header that was
/// written (current version, pixel format, height, glyph count, baseline),
/// its glyph table lists the coded regions in order (code, width, and data
/// offset), each glyph's data region holds that glyph's block, and every
/// pixel of every region is stored in its glyph's data.
///
/// Stated for regions inside the image, a height that fits the `u16` header
/// field, at most `u32::MAX` glyphs, and data offsets that fit `u32`.
pub proof fn lemma_generated_font_reads_back(
    coded: Seq<(u32, CharacterRegion)>,
    pixels: Seq<u8>,
    width: int,
    height: int,
    baseline: u16,
    pixel_format: PixelFormat,
)
    requires
        pixels.len() == width * height * 4,
        0 <= width,
        0 <= height <= 65535,
        baseline <= height,
        coded.len() <= u32::MAX,
        forall|i: int| 0 <= i < coded.len() ==> #[trigger] coded[i].1.x + coded[i].1.width <= width,
        forall|i: int|
            0 <= i < coded.len() ==> #[trigger] block_start(
                blocks_of(coded, pixels, width, height, pixel_format),
                14 + 10 * coded.len() as int,
                i,
            ) <= u32::MAX,
    ensures
        ({
            let img = canonical_image(
                2,
                pixel_format,
                height as u16,
                baseline,
                glyphs_of(coded),
                blocks_of(coded, pixels, width, height, pixel_format),
            );
            let blocks = blocks_of(coded, pixels, width, height, pixel_format);
            let start = 14 + 10 * coded.len() as int;
            &&& parse_font(img) == Ok::<Header, FontError>(
                Header {
                    magic: MAGIC,
                    version: 2,
                    pixel_format,
                    height: height as u16,
                    char_count: coded.len() as u32,
                    baseline,
                },
            )
            &&& forall|i: int|
                0 <= i < coded.len() ==> #[trigger] entry_at(img, 14, i) == GlyphEntry {
                    code: coded[i].0,
                    width: coded[i].1.width,
                    data_offset: block_start(blocks, start, i) as u32,
                }
            &&& forall|i: int|
                0 <= i < coded.len() ==> #[trigger] img.subrange(
                    block_start(blocks, start, i),
                    block_start(blocks, start, i) + blocks[i].len(),
                ) == blocks[i]
            &&& forall|i: int, y: int, c: int|
                0 <= i < coded.len() && 0 <= y < height && 0 <= c < coded[i].1.width
                    ==> #[trigger] stores_pixel(
                    blocks[i],
                    pixel_format,
                    coded[i].1.width as int,
                    y,
                    c,
                    pixels[alpha_index(width, coded[i].1.x + c, y)],
                )
        }),
{
    let blocks = blocks_of(coded, pixels, width, height, pixel_format);
    let glyphs = glyphs_of(coded);
    assert forall|i: int| 0 <= i < blocks.len() implies #[trigger] blocks[i].len()
        == spec_glyph_data_size(glyphs[i].1 as int, (height as u16) as int, pixel_format) by {
        lemma_glyph_block(pixels, width, height, coded[i].1.x as int, coded[i].1.width as int, pixel_format);
    }
    assert forall|i: int, y: int, c: int|
        0 <= i < coded.len() && 0 <= y < height && 0 <= c < coded[i].1.width implies #[trigger] stores_pixel(
        blocks[i],
        pixel_format,
        coded[i].1.width as int,
        y,
        c,
        pixels[alpha_index(width, coded[i].1.x + c, y)],
    ) by {
        lemma_glyph_block(pixels, width, height, coded[i].1.x as int, coded[i].1.width as int, pixel_format);
    }
    lemma_read_canonical(2, pixel_format, height as u16, baseline, glyphs, blocks);
}

/// How many pixels of row `y`, columns `rx..rx + rw`, lie in a buffer of
/// exactly `width * height` pixels.
pub open spec fn row_count(width: int, height: int, y: int, rx: int, rw: int) -> int {
    let lim = width * height - y * width - rx;
    if lim <= 0 {
        0
    } else if lim < rw {
        lim
    } else {
        rw
    }
}

/// How many pixels of the first `rows` rows of a region lie in the buffer.
pub open spec fn region_count(width: int, height: int, rx: int, rw: int, rows: int) -> int
    decreases rows,
{
    if rows <= 0 {
        0
    } else {
        region_count(width, height, rx, rw, rows - 1) + row_count(width, height, rows - 1, rx, rw)
    }
}

proof fn lemma_row_samples_len(
    pixels: Seq<u8>,
    width: int,
    height: int,
    y: int,
    rx: int,
    k: int,
    pixel_format: PixelFormat,
)
    requires
        pixels.len() == width * height * 4,
        0 <= k,
        0 <= y,
        0 <= rx,
        0 <= width,
    ensures
        row_samples(pixels, width, y, rx, k, pixel_format).len() == row_count(width, height, y, rx, k),
    decreases k,
{
    if k > 0 {
        lemma_row_samples_len(pixels, width, height, y, rx, k - 1, pixel_format);
        let i = alpha_index(width, rx + k - 1, y);
        let a = y * width + rx + k - 1;
        let b = width * height;
        assert(y * width >= 0) by (nonlinear_arith)
            requires
                0 <= y,
                0 <= width,
        ;
        assert(i == a * 4 + 3);
        assert(pixels.len() == b * 4);
        assert((0 <= i < pixels.len()) == (a < b));
        assert(row_count(width, height, y, rx, k) == if a < b { row_count(width, height, y, rx, k - 1) + 1 } else { row_count(width, height, y, rx, k - 1) });
    }
}

proof fn lemma_region_samples_len(
    pixels: Seq<u8>,
    width: int,
    height: int,
    rx: int,
    rw: int,
    rows: int,
    pixel_format: PixelFormat,
)
    requires
        pixels.len() == width * height * 4,
        0 <= rw,
        0 <= rx,
        0 <= width,
    ensures
        region_samples(pixels, width, rx, rw, rows, pixel_format).len() == region_count(
            width,
            height,
            rx,
            rw,
            rows,
        ),
    decreases rows,
{
    if rows > 0 {
        lemma_region_samples_len(pixels, width, height, rx, rw, rows - 1, pixel_format);
        lemma_row_samples_len(pixels, width, height, rows - 1, rx, rw, pixel_format);
    }
}

/// The length of the data block built for a region of a buffer of exactly
/// `width * height` pixels.
fn block_len(width: u32, height: u32, rx: u32, rw: u16, pixel_format: PixelFormat) -> (n: u128)
    ensures
        forall|pixels: Seq<u8>|
            pixels.len() == width * height * 4 ==> n == #[trigger] glyph_block(
                pixels,
                width as int,
                height as int,
                rx as int,
                rw as int,
                pixel_format,
            ).len(),
{
    match pixel_format {
        PixelFormat::Monochrome => {
            let h = height as u16;
            proof {
                assert(rw as int * h as int <= 65535 * 65535) by (nonlinear_arith)
                    requires
                        rw <= 65535,
                        h <= 65535,
                ;
            }
            let total = rw as u128 * h as u128;
            (total + 7) / 8
        },
        PixelFormat::AntiAliased => {
            let mut count: u128 = 0;
            let mut y: u32 = 0;
            let w = width as i128;
            let hh = height as i128;
            proof {
                assert(w * hh <= 0xffff_ffff * 0xffff_ffff) by (nonlinear_arith)
                    requires
                        0 <= w <= 0xffff_ffff,
                        0 <= hh <= 0xffff_ffff,
                ;
            }
            while y < height
                invariant
                    w == width,
                    hh == height,
                    w * hh <= 0xffff_ffff * 0xffff_ffff,
                    y <= height,
                    count == region_count(width as int, height as int, rx as int, rw as int, y as int),
                    count <= y * 65535,
                decreases height - y,
            {
                let yy = y as i128;
                proof {
                    assert(0 <= yy * w <= w * hh) by (nonlinear_arith)
                        requires
                            0 <= yy <= hh,
                            0 <= w,
                    ;
                }
                let lim = w * hh - yy * w - rx as i128;
                let c: u128 = if lim <= 0 {
                    0
                } else if lim < rw as i128 {
                    lim as u128
                } else {
                    rw as u128
                };
                count = count + c;
                y = y + 1;
            }
            proof {
                assert forall|pixels: Seq<u8>| pixels.len() == width * height * 4 implies count
                    == #[trigger] glyph_block(
                    pixels,
                    width as int,
                    height as int,
                    rx as int,
                    rw as int,
                    pixel_format,
                ).len() by {
                    lemma_region_samples_len(
                        pixels,
                        width as int,
                        height as int,
                        rx as int,
                        rw as int,
                        height as int,
                        pixel_format,
                    );
                }
            }
            count
        },
    }
}

/// Whether `generate_binary_font` may be called on these arguments: decides
/// `generate_within_limits` (the pixel indices, the pixel count and the output
/// size stay within machine arithmetic).
pub fn generation_within_limits(
    coded_regions: &[(u32, CharacterRegion)],
    pixels: &[u8],
    width: u32,
    height: u32,
    baseline: u16,
    pixel_format: &str,
) -> (r: bool)
    ensures
        r == generate_within_limits(
            coded_regions@,
            pixels@,
            width as int,
            height as int,
            baseline,
            pixel_format@,
        ),
{
    proof {
        reveal_strlit("8bpp");
        reveal_strlit("1bpp");
    }
    let pf = if str_equals(pixel_format, &['8', 'b', 'p', 'p']) {
        PixelFormat::AntiAliased
    } else if str_equals(pixel_format, &['1', 'b', 'p', 'p']) {
        PixelFormat::Monochrome
    } else {
        return true;
    };
    assert(format_named(pixel_format@) == Some(pf));
    if baseline > height as u16 {
        return true;
    }
    let w = width as u128;
    let h = height as u128;
    proof {
        assert(w * h <= 0xffff_ffff * 0xffff_ffff) by (nonlinear_arith)
            requires
                w <= 0xffff_ffff,
                h <= 0xffff_ffff,
        ;
    }
    if w * h * 4 > usize::MAX as u128 {
        return false;
    }
    if pixels.len() as u128 != w * h * 4 {
        return true;
    }
    let ghost coded = coded_regions@;
    let ghost blocks = blocks_of(coded, pixels@, width as int, height as int, pf);
    let n = coded_regions.len();
    let start: u128 = 14 + 10 * (n as u128);
    if start > usize::MAX as u128 {
        return false;
    }
    let mut total: u128 = start;
    let mut i: usize = 0;
    while i < n
        invariant
            n == coded.len(),
            coded == coded_regions@,
            blocks == blocks_of(coded, pixels@, width as int, height as int, pf),
            pixels@.len() == width * height * 4,
            width * height * 4 <= usize::MAX,
            format_named(pixel_format@) == Some(pf),
            baseline <= height as u16,
            start == 14 + 10 * n,
            w == width,
            h == height,
            i <= n,
            total == block_start(blocks, start as int, i as int),
            total <= start + i * 0x1_0000_0000_0000,
            forall|k: int|
                0 <= k < i ==> sampling_fits(
                    width as int,
                    height as int,
                    #[trigger] coded[k].1.x as int,
                    coded[k].1.width as int,
                ),
        decreases n - i,
    {
        let rx = coded_regions[i].1.x;
        let rw = coded_regions[i].1.width;
        let ex = rx as u128 + rw as u128;
        if h > 0 && rw > 0 {
            proof {
                assert((h - 1) * w <= 0xffff_ffff * 0xffff_ffff) by (nonlinear_arith)
                    requires
                        1 <= h <= 0xffff_ffff,
                        w <= 0xffff_ffff,
                ;
            }
            let last = ((h - 1) * w + ex - 1) * 4;
            if ex > u32::MAX as u128 || last > u32::MAX as u128 || last + 3 > usize::MAX as u128 {
                assert(!sampling_fits(width as int, height as int, coded[i as int].1.x as int, coded[i as int].1.width as int));
                return false;
            }
        }
        let len = block_len(width, height, rx, rw, pf);
        proof {
            assert(len == blocks[i as int].len());
            assert(len <= 0x1_0000_0000_0000) by {
                lemma_glyph_block_len_bound(pixels@, width as int, height as int, rx as int, rw as int, pf);
            }
        }
        total = total + len;
        i = i + 1;
    }
    total <= usize::MAX as u128
}

/// A region's data block holds at most `rw * height` bytes.
proof fn lemma_glyph_block_len_bound(
    pixels: Seq<u8>,
    width: int,
    height: int,
    rx: int,
    rw: int,
    pixel_format: PixelFormat,
)
    requires
        pixels.len() == width * height * 4,
        0 <= rw <= 65535,
        0 <= height <= 0xffff_ffff,
        0 <= rx,
        0 <= width,
    ensures
        glyph_block(pixels, width, height, rx, rw, pixel_format).len() <= 0x1_0000_0000_0000,
{
    lemma_region_samples_len(pixels, width, height, rx, rw, height, pixel_format);
    lemma_region_count_bound(width, height, rx, rw, height);
    assert(rw * height <= 65535 * 0xffff_ffff) by (nonlinear_arith)
        requires
            0 <= rw <= 65535,
            0 <= height <= 0xffff_ffff,
    ;
    assert(rw * ((height as u16) as int) <= 65535 * 65535) by (nonlinear_arith)
        requires
            0 <= rw <= 65535,
            0 <= (height as u16) as int <= 65535,
    ;
}

proof fn lemma_region_count_bound(width: int, height: int, rx: int, rw: int, rows: int)
    requires
        0 <= rw,
    ensures
        0 <= region_count(width, height, rx, rw, rows) <= if rows < 0 { 0 } else { rw * rows },
    decreases rows,
{
    if rows > 0 {
        lemma_region_count_bound(width, height, rx, rw, rows - 1);
        assert(rw * (rows - 1) + rw == rw * rows) by (nonlinear_arith);
    }
}

} // verus!
