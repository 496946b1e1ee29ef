use vstd::prelude::*;
use crate::error::FontError;
use crate::format::{
    entry_at, le_u16_at, le_u32_at, magic_seq, parse_font, parse_header, pixel_format_code,
    spec_glyph_data_size, spec_header_size, validate_from,
    GlyphEntry, Header, PixelFormat,
    MAGIC,
};

verus! {

/// Little-endian bytes of a `u16`.
pub open spec fn le16(x: u16) -> Seq<u8> {
    seq![(x % 256) as u8, (x / 256) as u8]
}

/// Little-endian bytes of a `u32`.
pub open spec fn le32(x: u32) -> Seq<u8> {
    seq![(x % 256) as u8, ((x / 256) % 256) as u8, ((x / 65536) % 256) as u8, (x / 16777216) as u8]
}

/// The header bytes of a font file of the given version (v1 has no baseline).
pub open spec fn header_bytes(
    version: u8,
    pixel_format: PixelFormat,
    height: u16,
    char_count: u32,
    baseline: u16,
) -> Seq<u8> {
    magic_seq() + seq![version, pixel_format_code(pixel_format)] + le16(height) + le32(char_count)
        + if version == 1 {
        Seq::<u8>::empty()
    } else {
        le16(baseline)
    }
}

/// The 10 bytes of one glyph table entry.
pub open spec fn entry_bytes(e: GlyphEntry) -> Seq<u8> {
    le32(e.code) + le16(e.width) + le32(e.data_offset)
}

/// The glyph table holding the first `n` entries, in order.
pub open spec fn table_bytes(entries: Seq<GlyphEntry>, n: int) -> Seq<u8>
    decreases n,
{
    if n <= 0 {
        Seq::<u8>::empty()
    } else {
        table_bytes(entries, n - 1) + entry_bytes(entries[n - 1])
    }
}

/// A font file: header, glyph table, then the glyph data area.
pub open spec fn font_image(
    version: u8,
    pixel_format: PixelFormat,
    height: u16,
    baseline: u16,
    entries: Seq<GlyphEntry>,
    data: Seq<u8>,
) -> Seq<u8> {
    header_bytes(version, pixel_format, height, entries.len() as u32, baseline) + table_bytes(
        entries,
        entries.len() as int,
    ) + data
}

/// The first `n` glyph data blocks, one after the other.
pub open spec fn concat_blocks(blocks: Seq<Seq<u8>>, n: int) -> Seq<u8>
    decreases n,
{
    if n <= 0 {
        Seq::<u8>::empty()
    } else {
        concat_blocks(blocks, n - 1) + blocks[n - 1]
    }
}

/// Where the `i`-th block starts when the blocks are laid out one after the
/// other from `start`.
pub open spec fn block_start(blocks: Seq<Seq<u8>>, start: int, i: int) -> int
    decreases i,
{
    if i <= 0 {
        start
    } else {
        block_start(blocks, start, i - 1) + blocks[i - 1].len()
    }
}

/// Glyph entries for `glyphs` (code, width) whose data blocks are laid out one
/// after the other from `start`; offsets are stored as `u32` (truncated).
pub open spec fn laid_out_entries(glyphs: Seq<(u32, u16)>, blocks: Seq<Seq<u8>>, start: int) -> Seq<
    GlyphEntry,
> {
    Seq::new(
        glyphs.len(),
        |i: int|
            GlyphEntry {
                code: glyphs[i].0,
                width: glyphs[i].1,
                data_offset: block_start(blocks, start, i) as u32,
            },
    )
}

/// The canonical file of a font: glyph data blocks laid out in table order
/// right after the glyph table.
#[verifier::opaque]
pub open spec fn canonical_image(
    version: u8,
    pixel_format: PixelFormat,
    height: u16,
    baseline: u16,
    glyphs: Seq<(u32, u16)>,
    blocks: Seq<Seq<u8>>,
) -> Seq<u8> {
    font_image(
        version,
        pixel_format,
        height,
        baseline,
        laid_out_entries(glyphs, blocks, spec_header_size(version) + 10 * glyphs.len()),
        concat_blocks(blocks, blocks.len() as int),
    )
}

pub proof fn lemma_le16(x: u16)
    ensures
        le_u16_at(le16(x), 0) == x,
        le16(x).len() == 2,
{
    assert((x % 256) as u8 as int + 256 * ((x / 256) as u8 as int) == x) by (nonlinear_arith);
}

pub proof fn lemma_le32(x: u32)
    ensures
        le_u32_at(le32(x), 0) == x,
        le32(x).len() == 4,
{
    assert(x == (x % 256) + 256 * ((x / 256) % 256) + 65536 * ((x / 65536) % 256) + 16777216 * (
    x / 16777216)) by (bit_vector);
    assert(x / 16777216 < 256) by (bit_vector);
}

/// A `u16` written at `p` reads back.
proof fn lemma_read_u16_at(s: Seq<u8>, p: int, x: u16)
    requires
        0 <= p,
        p + 2 <= s.len(),
        s.subrange(p, p + 2) == le16(x),
    ensures
        le_u16_at(s, p) == x,
{
    lemma_le16(x);
    assert(s[p] == s.subrange(p, p + 2)[0]);
    assert(s[p + 1] == s.subrange(p, p + 2)[1]);
}

/// A `u32` written at `p` reads back.
proof fn lemma_read_u32_at(s: Seq<u8>, p: int, x: u32)
    requires
        0 <= p,
        p + 4 <= s.len(),
        s.subrange(p, p + 4) == le32(x),
    ensures
        le_u32_at(s, p) == x,
{
    lemma_le32(x);
    assert(s[p] == s.subrange(p, p + 4)[0]);
    assert(s[p + 1] == s.subrange(p, p + 4)[1]);
    assert(s[p + 2] == s.subrange(p, p + 4)[2]);
    assert(s[p + 3] == s.subrange(p, p + 4)[3]);
}

/// The glyph table holds ten bytes per entry, entry `i` at `10 * i`.
proof fn lemma_table_layout(entries: Seq<GlyphEntry>, n: int)
    requires
        0 <= n <= entries.len(),
    ensures
        table_bytes(entries, n).len() == 10 * n,
        forall|i: int|
            0 <= i < n ==> #[trigger] table_bytes(entries, n).subrange(10 * i, 10 * i + 10)
                == entry_bytes(entries[i]),
    decreases n,
{
    if n > 0 {
        lemma_table_layout(entries, n - 1);
        lemma_le16(entries[n - 1].width);
        lemma_le32(entries[n - 1].code);
        lemma_le32(entries[n - 1].data_offset);
        let t = table_bytes(entries, n);
        let prev = table_bytes(entries, n - 1);
        assert(t == prev + entry_bytes(entries[n - 1]));
        assert forall|i: int| 0 <= i < n implies #[trigger] t.subrange(10 * i, 10 * i + 10)
            == entry_bytes(entries[i]) by {
            if i < n - 1 {
                assert(t.subrange(10 * i, 10 * i + 10) =~= prev.subrange(10 * i, 10 * i + 10));
            } else {
                assert(t.subrange(10 * i, 10 * i + 10) =~= entry_bytes(entries[n - 1]));
            }
        }
    }
}

/// A glyph table entry written at `p` reads back.
proof fn lemma_read_entry(s: Seq<u8>, p: int, e: GlyphEntry)
    requires
        0 <= p,
        p + 10 <= s.len(),
        s.subrange(p, p + 10) == entry_bytes(e),
    ensures
        le_u32_at(s, p) == e.code,
        le_u16_at(s, p + 4) == e.width,
        le_u32_at(s, p + 6) == e.data_offset,
{
    lemma_le16(e.width);
    lemma_le32(e.code);
    lemma_le32(e.data_offset);
    let eb = entry_bytes(e);
    assert(s.subrange(p, p + 4) =~= eb.subrange(0, 4));
    assert(s.subrange(p + 4, p + 6) =~= eb.subrange(4, 6));
    assert(s.subrange(p + 6, p + 10) =~= eb.subrange(6, 10));
    assert(eb.subrange(0, 4) =~= le32(e.code));
    assert(eb.subrange(4, 6) =~= le16(e.width));
    assert(eb.subrange(6, 10) =~= le32(e.data_offset));
    lemma_read_u32_at(s, p, e.code);
    lemma_read_u16_at(s, p + 4, e.width);
    lemma_read_u32_at(s, p + 6, e.data_offset);
}

/// Reading back a written font file: the header that `parse_header` finds,
/// every glyph table entry, and the glyph data area.
pub proof fn lemma_read_image(
    version: u8,
    pixel_format: PixelFormat,
    height: u16,
    baseline: u16,
    entries: Seq<GlyphEntry>,
    data: Seq<u8>,
)
    requires
        version == 1 || version == 2,
        version == 2 ==> baseline <= height,
        entries.len() <= u32::MAX,
    ensures
        ({
            let img = font_image(version, pixel_format, height, baseline, entries, data);
            let hs = spec_header_size(version);
            let n = entries.len() as int;
            &&& img.len() == hs + 10 * n + data.len()
            &&& parse_header(img) == Ok::<Header, FontError>(
                Header {
                    magic: MAGIC,
                    version,
                    pixel_format,
                    height,
                    char_count: n as u32,
                    baseline: if version == 2 {
                        baseline
                    } else {
                        height
                    },
                },
            )
            &&& forall|i: int| 0 <= i < n ==> #[trigger] entry_at(img, hs, i) == entries[i]
            &&& img.subrange(hs + 10 * n, img.len() as int) == data
        }),
{
    let n = entries.len() as int;
    let hs = spec_header_size(version);
    let hb = header_bytes(version, pixel_format, height, n as u32, baseline);
    let tb = table_bytes(entries, n);
    let img = font_image(version, pixel_format, height, baseline, entries, data);
    lemma_le16(height);
    lemma_le16(baseline);
    lemma_le32(n as u32);
    lemma_table_layout(entries, n);
    assert(hb.len() == hs);
    assert(img == hb + tb + data);
    assert(img.subrange(0, 4) =~= magic_seq());
    assert(img[4] == version);
    assert(img[5] == pixel_format_code(pixel_format));
    assert(img.subrange(6, 8) =~= le16(height));
    lemma_read_u16_at(img, 6, height);
    assert(img.subrange(8, 12) =~= le32(n as u32));
    lemma_read_u32_at(img, 8, n as u32);
    if version == 2 {
        assert(img.subrange(12, 14) =~= le16(baseline));
        lemma_read_u16_at(img, 12, baseline);
    }
    assert(img.subrange(hs, hs + 10 * n) =~= tb);
    assert forall|i: int| 0 <= i < n implies #[trigger] entry_at(img, hs, i) == entries[i] by {
        let p = hs + 10 * i;
        assert(img.subrange(p, p + 10) =~= img.subrange(hs, hs + 10 * n).subrange(10 * i, 10 * i + 10));
        lemma_read_entry(img, p, entries[i]);
    }
    assert(img.subrange(hs + 10 * n, img.len() as int) =~= data);
}

/// Laying blocks out from `start` shifts their positions laid out from 0.
proof fn lemma_block_start_shift(blocks: Seq<Seq<u8>>, start: int, i: int)
    ensures
        block_start(blocks, start, i) == start + block_start(blocks, 0, i),
    decreases i,
{
    if i > 0 {
        lemma_block_start_shift(blocks, start, i - 1);
    }
}

/// The concatenation of the first `n` blocks holds block `i` at its start.
proof fn lemma_concat_layout(blocks: Seq<Seq<u8>>, n: int)
    requires
        0 <= n <= blocks.len(),
    ensures
        concat_blocks(blocks, n).len() == block_start(blocks, 0, n),
        forall|i: int|
            0 <= i <= n ==> 0 <= #[trigger] block_start(blocks, 0, i) <= block_start(blocks, 0, n),
        forall|i: int|
            0 <= i < n ==> #[trigger] concat_blocks(blocks, n).subrange(
                block_start(blocks, 0, i),
                block_start(blocks, 0, i) + blocks[i].len(),
            ) == blocks[i],
    decreases n,
{
    if n > 0 {
        lemma_concat_layout(blocks, n - 1);
        let c = concat_blocks(blocks, n);
        let prev = concat_blocks(blocks, n - 1);
        assert forall|i: int| 0 <= i < n implies #[trigger] c.subrange(
            block_start(blocks, 0, i),
            block_start(blocks, 0, i) + blocks[i].len(),
        ) == blocks[i] by {
            let s = block_start(blocks, 0, i);
            if i < n - 1 {
                assert(s + blocks[i].len() == block_start(blocks, 0, i + 1));
                assert(c.subrange(s, s + blocks[i].len()) =~= prev.subrange(s, s + blocks[i].len()));
            } else {
                assert(c.subrange(s, s + blocks[i].len()) =~= blocks[i]);
            }
        }
    }
}

/// Every glyph of a canonical file passes the data-region check from `i` on.
proof fn lemma_canonical_validates(img: Seq<u8>, h: Header, hs: int, entries: Seq<GlyphEntry>, i: int)
    requires
        0 <= i <= h.char_count,
        h.char_count == entries.len(),
        forall|k: int| 0 <= k < entries.len() ==> #[trigger] entry_at(img, hs, k) == entries[k],
        forall|k: int|
            0 <= k < entries.len() ==> entries[k].data_offset + spec_glyph_data_size(
                #[trigger] entries[k].width as int,
                h.height as int,
                h.pixel_format,
            ) <= img.len(),
    ensures
        validate_from(img, h, hs, i) == Ok::<(), FontError>(()),
    decreases h.char_count - i,
{
    if i < h.char_count {
        assert(entry_at(img, hs, i) == entries[i]);
        assert(spec_glyph_data_size(entries[i].width as int, h.height as int, h.pixel_format) >= 0)
            by (nonlinear_arith);
        lemma_canonical_validates(img, h, hs, entries, i + 1);
    }
}

/// Reading back a canonical font file: it parses (header and glyph regions
/// check out), its table holds the laid-out entries, and each glyph's data
/// region holds that glyph's block.
pub proof fn lemma_read_canonical(
    version: u8,
    pixel_format: PixelFormat,
    height: u16,
    baseline: u16,
    glyphs: Seq<(u32, u16)>,
    blocks: Seq<Seq<u8>>,
)
    requires
        version == 1 || version == 2,
        version == 2 ==> baseline <= height,
        glyphs.len() == blocks.len(),
        glyphs.len() <= u32::MAX,
        forall|i: int|
            0 <= i < blocks.len() ==> #[trigger] blocks[i].len() == spec_glyph_data_size(
                glyphs[i].1 as int,
                height as int,
                pixel_format,
            ),
        forall|i: int|
            0 <= i < blocks.len() ==> #[trigger] block_start(
                blocks,
                spec_header_size(version) + 10 * glyphs.len(),
                i,
            ) <= u32::MAX,
    ensures
        ({
            let img = canonical_image(version, pixel_format, height, baseline, glyphs, blocks);
            let hs = spec_header_size(version);
            let n = glyphs.len() as int;
            let start = hs + 10 * n;
            &&& parse_font(img) == Ok::<Header, FontError>(
                Header {
                    magic: MAGIC,
                    version,
                    pixel_format,
                    height,
                    char_count: n as u32,
                    baseline: if version == 2 {
                        baseline
                    } else {
                        height
                    },
                },
            )
            &&& forall|i: int|
                0 <= i < n ==> #[trigger] entry_at(img, hs, i) == GlyphEntry {
                    code: glyphs[i].0,
                    width: glyphs[i].1,
                    data_offset: block_start(blocks, start, i) as u32,
                }
            &&& forall|i: int|
                0 <= i < n ==> #[trigger] img.subrange(
                    block_start(blocks, start, i),
                    block_start(blocks, start, i) + blocks[i].len(),
                ) == blocks[i]
        }),
{
    reveal(canonical_image);
    let hs = spec_header_size(version);
    let n = glyphs.len() as int;
    let start = hs + 10 * n;
    let entries = laid_out_entries(glyphs, blocks, start);
    let data = concat_blocks(blocks, n);
    let img = font_image(version, pixel_format, height, baseline, entries, data);
    let h = Header {
        magic: MAGIC,
        version,
        pixel_format,
        height,
        char_count: n as u32,
        baseline: if version == 2 {
            baseline
        } else {
            height
        },
    };
    lemma_read_image(version, pixel_format, height, baseline, entries, data);
    lemma_concat_layout(blocks, n);
    assert(img.subrange(start, img.len() as int) == data);
    assert forall|i: int| 0 <= i < n implies #[trigger] img.subrange(
        block_start(blocks, start, i),
        block_start(blocks, start, i) + blocks[i].len(),
    ) == blocks[i] by {
        lemma_block_start_shift(blocks, start, i);
        let s = block_start(blocks, 0, i);
        assert(s + blocks[i].len() <= block_start(blocks, 0, n)) by {
            lemma_block_start_shift(blocks, 0, i + 1);
            assert(block_start(blocks, 0, i + 1) == s + blocks[i].len());
        }
        assert(img.subrange(start + s, start + s + blocks[i].len()) =~= data.subrange(
            s,
            s + blocks[i].len(),
        ));
    }
    assert forall|k: int| 0 <= k < entries.len() implies entries[k].data_offset
        + spec_glyph_data_size(#[trigger] entries[k].width as int, height as int, pixel_format)
        <= img.len() by {
        lemma_block_start_shift(blocks, start, k);
        assert(block_start(blocks, 0, k + 1) == block_start(blocks, 0, k) + blocks[k].len());
        assert(block_start(blocks, 0, k + 1) <= block_start(blocks, 0, n));
        assert(entries[k].data_offset == block_start(blocks, start, k));
    }
    lemma_canonical_validates(img, h, hs, entries, 0);
}

/// Appends the little-endian bytes of `x`.
fn push_u16_le(buf: &mut Vec<u8>, x: u16)
    ensures
        final(buf)@ == old(buf)@ + le16(x),
{
    buf.push((x % 256) as u8);
    buf.push((x / 256) as u8);
    assert(final(buf)@ =~= old(buf)@ + le16(x));
}

/// Appends the little-endian bytes of `x`.
fn push_u32_le(buf: &mut Vec<u8>, x: u32)
    ensures
        final(buf)@ == old(buf)@ + le32(x),
{
    buf.push((x % 256) as u8);
    buf.push(((x / 256) % 256) as u8);
    buf.push(((x / 65536) % 256) as u8);
    buf.push((x / 16777216) as u8);
    assert(final(buf)@ =~= old(buf)@ + le32(x));
}

/// Appends the bytes of `s`.
pub(crate) fn append_bytes(buf: &mut Vec<u8>, s: &[u8])
    ensures
        final(buf)@ == old(buf)@ + s@,
{
    let ghost before = buf@;
    let mut j: usize = 0;
    while j < s.len()
        invariant
            j <= s@.len(),
            buf@ == before + s@.subrange(0, j as int),
        decreases s@.len() - j,
    {
        buf.push(s[j]);
        j = j + 1;
        assert(buf@ =~= before + s@.subrange(0, j as int));
    }
    assert(s@.subrange(0, s@.len() as int) =~= s@);
}

/// Writes a font file: header, the glyph table of `entries`, then `data`.
pub fn write_font(
    version: u8,
    pixel_format: PixelFormat,
    height: u16,
    baseline: u16,
    entries: &Vec<GlyphEntry>,
    data: &Vec<u8>,
) -> (r: Vec<u8>)
    ensures
        r@ == font_image(version, pixel_format, height, baseline, entries@, data@),
{
    let mut buf: Vec<u8> = Vec::new();
    buf.push(MAGIC[0]);
    buf.push(MAGIC[1]);
    buf.push(MAGIC[2]);
    buf.push(MAGIC[3]);
    buf.push(version);
    buf.push(pixel_format.code());
    push_u16_le(&mut buf, height);
    push_u32_le(&mut buf, entries.len() as u32);
    if version != 1 {
        push_u16_le(&mut buf, baseline);
    }
    assert(buf@ =~= header_bytes(version, pixel_format, height, entries@.len() as u32, baseline));
    let ghost head = buf@;
    let mut i: usize = 0;
    while i < entries.len()
        invariant
            i <= entries@.len(),
            buf@ == head + table_bytes(entries@, i as int),
        decreases entries@.len() - i,
    {
        let e = &entries[i];
        push_u32_le(&mut buf, e.code);
        push_u16_le(&mut buf, e.width);
        push_u32_le(&mut buf, e.data_offset);
        i = i + 1;
        assert(buf@ =~= head + table_bytes(entries@, i as int));
    }
    append_bytes(&mut buf, data.as_slice());
    buf
}

} // verus!
