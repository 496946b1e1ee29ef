use vstd::prelude::*;
use vstd::slice::slice_subrange;
use crate::error::FontError;
use crate::encode::{append_bytes, laid_out_entries, concat_blocks, block_start, canonical_image, lemma_read_canonical, write_font};

verus! {

/// Binary font format magic: `"EFM1"`.
pub const MAGIC: [u8; 4] = [0x45, 0x46, 0x4D, 0x31];
/// Current format version — v2 appends the `baseline` field to the header.
pub const VERSION: u8 = 2;
/// Oldest format version this parser still reads.
pub const MIN_VERSION: u8 = 1;
/// Size of the current (v2) fixed header in bytes.
pub const HEADER_SIZE: usize = 14;
/// Size of the v1 fixed header in bytes (no `baseline` field).
pub const HEADER_SIZE_V1: usize = 12;
/// Size of each per-glyph table entry in bytes.
pub const GLYPH_ENTRY_SIZE: usize = 10;

/// The four magic bytes as a sequence.
pub open spec fn magic_seq() -> Seq<u8> {
    seq![0x45u8, 0x46u8, 0x4Du8, 0x31u8]
}

/// Header size in bytes of a format version.
pub open spec fn spec_header_size(version: u8) -> int {
    if version == 1 { 12 } else { 14 }
}

/// Header size in bytes for a given format version.
pub fn header_size(version: u8) -> (size: usize)
    ensures
        size == spec_header_size(version),
{
    match version {
        1 => HEADER_SIZE_V1,
        _ => HEADER_SIZE,
    }
}

/// Pixel format stored in the header.
#[derive(Debug, Clone, Copy, PartialEq, Eq)]
pub enum PixelFormat {
    /// Monochrome: 1 bit per pixel, 8 pixels packed per byte.
    Monochrome,
    /// Anti-aliased: 8 bits per pixel (alpha value).
    AntiAliased,
}

/// The pixel format that a format code byte names.
pub open spec fn pixel_format_of(v: u8) -> Result<PixelFormat, FontError> {
    if v == 0 {
        Ok(PixelFormat::Monochrome)
    } else if v == 1 {
        Ok(PixelFormat::AntiAliased)
    } else {
        Err(FontError::InvalidPixelFormat(v))
    }
}

/// The format code byte written for a pixel format.
pub open spec fn pixel_format_code(pf: PixelFormat) -> u8 {
    match pf {
        PixelFormat::Monochrome => 0,
        PixelFormat::AntiAliased => 1,
    }
}

impl PixelFormat {
    /// Decode a format code byte.
    pub fn from_code(v: u8) -> (r: Result<PixelFormat, FontError>)
        ensures
            r == pixel_format_of(v),
    {
        match v {
            0 => Ok(PixelFormat::Monochrome),
            1 => Ok(PixelFormat::AntiAliased),
            _ => Err(FontError::InvalidPixelFormat(v)),
        }
    }

    /// The format code byte of this pixel format.
    pub fn code(&self) -> (c: u8)
        ensures
            c == pixel_format_code(*self),
    {
        match self {
            PixelFormat::Monochrome => 0,
            PixelFormat::AntiAliased => 1,
        }
    }
}

impl TryFrom<u8> for PixelFormat {
    type Error = FontError;

    fn try_from(v: u8) -> (r: Result<Self, Self::Error>) {
        PixelFormat::from_code(v)
    }
}

impl vstd::std_specs::convert::TryFromSpecImpl<u8> for PixelFormat {
    open spec fn obeys_try_from_spec() -> bool {
        true
    }

    open spec fn try_from_spec(v: u8) -> Result<Self, Self::Error> {
        pixel_format_of(v)
    }
}

/// Binary font header — 14 bytes (v2) or 12 bytes (v1), little-endian.
///
/// | offset | size | field          |
/// |--------|------|----------------|
/// | 0      | 4    | `magic`        |
/// | 4      | 1    | `version`      |
/// | 5      | 1    | `pixel_format` |
/// | 6      | 2    | `height`       |
/// | 8      | 4    | `char_count`   |
/// | 12     | 2    | `baseline` (v2 only) |
#[derive(Debug, Clone, PartialEq, Eq)]
pub struct Header {
    pub magic: [u8; 4],
    pub version: u8,
    pub pixel_format: PixelFormat,
    pub height: u16,
    pub char_count: u32,
    /// Distance in pixels from the top of the glyph box down to the alphabetic
    /// baseline. Always `<= height` (a parser refuses a larger one); v1 files
    /// carry no baseline, so they report `baseline == height`.
    pub baseline: u16,
}

/// One entry in the per-glyph table — 10 bytes, little-endian.
#[derive(Debug, Clone, PartialEq, Eq)]
pub struct GlyphEntry {
    /// Unicode code point.
    pub code: u32,
    /// Actual glyph pixel width (content only, excludes spacing).
    pub width: u16,
    /// Byte offset from start of file to this glyph's data region.
    pub data_offset: u32,
}

/// Little-endian `u16` stored at `b[i..i + 2]`.
pub open spec fn le_u16_at(b: Seq<u8>, i: int) -> int {
    b[i] as int + 256 * (b[i + 1] as int)
}

/// Little-endian `u32` stored at `b[i..i + 4]`.
pub open spec fn le_u32_at(b: Seq<u8>, i: int) -> int {
    b[i] as int + 256 * (b[i + 1] as int) + 65536 * (b[i + 2] as int) + 16777216 * (
    b[i + 3] as int)
}

/// Byte size of the data of a glyph of the given dimensions.
pub open spec fn spec_glyph_data_size(width: int, height: int, pixel_format: PixelFormat) -> int {
    match pixel_format {
        PixelFormat::AntiAliased => width * height,
        PixelFormat::Monochrome => (width * height + 7) / 8,
    }
}

/// The header that a file announces, or the first error in it.
///
/// The checks run in this order: length of the smallest header, magic,
/// version, length of this version's header, pixel format, baseline within
/// the glyph box, and room for the glyph table. Every header it gives has
/// `baseline <= height`.
pub open spec fn parse_header(b: Seq<u8>) -> Result<Header, FontError> {
    if b.len() < 12 {
        Err(FontError::TruncatedFile)
    } else if b.subrange(0, 4) != magic_seq() {
        Err(FontError::InvalidMagic)
    } else if b[4] < 1 || b[4] > 2 {
        Err(FontError::UnsupportedVersion(b[4]))
    } else if b.len() < spec_header_size(b[4]) {
        Err(FontError::TruncatedFile)
    } else if b[5] > 1 {
        Err(FontError::InvalidPixelFormat(b[5]))
    } else if b[4] >= 2 && le_u16_at(b, 12) > le_u16_at(b, 6) {
        Err(
            FontError::InvalidBaseline {
                baseline: le_u16_at(b, 12) as u16,
                height: le_u16_at(b, 6) as u16,
            },
        )
    } else if b.len() < spec_header_size(b[4]) + 10 * le_u32_at(b, 8) {
        Err(FontError::TruncatedFile)
    } else {
        Ok(
            Header {
                magic: MAGIC,
                version: b[4],
                pixel_format: if b[5] == 0 {
                    PixelFormat::Monochrome
                } else {
                    PixelFormat::AntiAliased
                },
                height: le_u16_at(b, 6) as u16,
                char_count: le_u32_at(b, 8) as u32,
                baseline: if b[4] >= 2 {
                    le_u16_at(b, 12) as u16
                } else {
                    le_u16_at(b, 6) as u16
                },
            },
        )
    }
}

/// The `i`-th entry of the glyph table that starts at `table`.
pub open spec fn entry_at(b: Seq<u8>, table: int, i: int) -> GlyphEntry {
    GlyphEntry {
        code: le_u32_at(b, table + 10 * i) as u32,
        width: le_u16_at(b, table + 10 * i + 4) as u16,
        data_offset: le_u32_at(b, table + 10 * i + 6) as u32,
    }
}

/// The error of the `i`-th glyph, if its data region does not lie in the file.
pub open spec fn glyph_error(b: Seq<u8>, h: Header, table: int, i: int) -> Option<FontError> {
    let e = entry_at(b, table, i);
    let size = spec_glyph_data_size(e.width as int, h.height as int, h.pixel_format);
    if e.data_offset > b.len() {
        Some(FontError::InvalidDataOffset { offset: e.data_offset, file_size: b.len() as usize })
    } else if e.data_offset + size > b.len() {
        Some(FontError::TruncatedGlyphData { offset: e.data_offset, required: size as usize })
    } else {
        None
    }
}

/// Checks glyphs `i..char_count` in table order: the error of the first bad
/// glyph, or `Ok`.
pub open spec fn validate_from(b: Seq<u8>, h: Header, table: int, i: int) -> Result<(), FontError>
    decreases h.char_count - i,
{
    if i >= h.char_count {
        Ok(())
    } else {
        match glyph_error(b, h, table, i) {
            Some(e) => Err(e),
            None => validate_from(b, h, table, i + 1),
        }
    }
}

/// What a full parse of `b` gives: its header, or the first error.
pub open spec fn parse_font(b: Seq<u8>) -> Result<Header, FontError> {
    match parse_header(b) {
        Err(e) => Err(e),
        Ok(h) => match validate_from(b, h, spec_header_size(h.version), 0) {
            Err(e) => Err(e),
            Ok(_) => Ok(h),
        },
    }
}

/// The first entry at index `i` or later whose code is `code`.
pub open spec fn find_entry(b: Seq<u8>, table: int, n: int, code: u32, i: int) -> Option<
    GlyphEntry,
>
    decreases n - i,
{
    if i >= n {
        None
    } else if entry_at(b, table, i).code == code {
        Some(entry_at(b, table, i))
    } else {
        find_entry(b, table, n, code, i + 1)
    }
}

/// A parsed binary font.
///
/// Holds the parsed header and a reference to the input byte slice.
/// Glyph entries are read from the glyph table on demand.
#[derive(Debug, Clone, PartialEq, Eq)]
pub struct Font<'a> {
    pub header: Header,
    data: &'a [u8],
    /// Byte offset of the per-glyph table — depends on the header's version.
    table_offset: usize,
}

/// Reads the little-endian `u16` at `data[i..i + 2]`.
fn read_u16_le(data: &[u8], i: usize) -> (v: u16)
    requires
        i + 2 <= data@.len(),
    ensures
        v == le_u16_at(data@, i as int),
{
    data[i] as u16 + (data[i + 1] as u16) * 256
}

/// Reads the little-endian `u32` at `data[i..i + 4]`.
fn read_u32_le(data: &[u8], i: usize) -> (v: u32)
    requires
        i + 4 <= data@.len(),
    ensures
        v == le_u32_at(data@, i as int),
{
    data[i] as u32 + (data[i + 1] as u32) * 256 + (data[i + 2] as u32) * 65536 + (data[i
        + 3] as u32) * 16777216
}

/// What a parsed font stands for: its header, the bytes of the file, and
/// where the glyph table starts in them.
pub struct FontView {
    pub header: Header,
    pub bytes: Seq<u8>,
    pub table_start: int,
}

impl<'a> View for Font<'a> {
    type V = FontView;

    closed spec fn view(&self) -> FontView {
        FontView { header: self.header, bytes: self.data@, table_start: self.table_offset as int }
    }
}

impl<'a> Font<'a> {
    /// The header is the one the bytes announce, and the table follows it.
    pub open spec fn wf(&self) -> bool {
        &&& parse_header(self@.bytes) == Ok::<Header, FontError>(self@.header)
        &&& self@.table_start == spec_header_size(self@.header.version)
    }

    /// The `i`-th entry of this font's glyph table.
    pub open spec fn entry(&self, i: int) -> GlyphEntry {
        entry_at(self@.bytes, self@.table_start, i)
    }

    /// The glyph table lies within the bytes.
    proof fn lemma_table_fits(&self)
        requires
            self.wf(),
        ensures
            self@.table_start + 10 * self@.header.char_count <= self@.bytes.len(),
            self@.bytes.len() == self.data.len(),
            self@.bytes == self.data@,
            self@.table_start == self.table_offset,
            self@.header == self.header,
    {
        assert(self.data.len() == self.data@.len());
    }

    /// The header, read from a parsed font.
    pub fn header(&self) -> (h: &Header)
        ensures
            *h == self@.header,
    {
        &self.header
    }

    /// Parse a binary font from a byte slice.
    ///
    /// Validates magic, version, header completeness, per-glyph table bounds,
    /// and that every glyph's data region fits within the file.
    pub fn new(data: &'a [u8]) -> (r: Result<Self, FontError>)
        ensures
            match r {
                Ok(f) => {
                    &&& parse_font(data@) == Ok::<Header, FontError>(f@.header)
                    &&& f.wf()
                    &&& f@.header.baseline <= f@.header.height
                    &&& f@.bytes == data@
                },
                Err(e) => parse_font(data@) == Err::<Header, FontError>(e),
            },
    {
        let font = Self::new_fast(data)?;
        font.validate_glyphs()?;
        Ok(font)
    }

    /// Parse a binary font from a byte slice with minimal validation.
    ///
    /// Validates magic, version, header completeness, and per-glyph table
    /// bounds, but not the individual glyph data regions.
    pub fn new_fast(data: &'a [u8]) -> (r: Result<Self, FontError>)
        ensures
            match r {
                Ok(f) => {
                    &&& parse_header(data@) == Ok::<Header, FontError>(f@.header)
                    &&& f.wf()
                    &&& f@.header.baseline <= f@.header.height
                    &&& f@.bytes == data@
                },
                Err(e) => parse_header(data@) == Err::<Header, FontError>(e),
            },
    {
        // 1. The smallest header of any supported version must fit.
        if data.len() < HEADER_SIZE_V1 {
            return Err(FontError::TruncatedFile);
        }
        // 2. Magic.

        if data[0] != MAGIC[0] || data[1] != MAGIC[1] || data[2] != MAGIC[2] || data[3]
            != MAGIC[3] {
            proof {
                assert(data@.subrange(0, 4) != magic_seq()) by {
                    if data@.subrange(0, 4) == magic_seq() {
                        assert(data@.subrange(0, 4)[0] == data@[0]);
                        assert(data@.subrange(0, 4)[1] == data@[1]);
                        assert(data@.subrange(0, 4)[2] == data@[2]);
                        assert(data@.subrange(0, 4)[3] == data@[3]);
                    }
                }
            }
            return Err(FontError::InvalidMagic);
        }
        assert(data@.subrange(0, 4) =~= magic_seq());
        // 3. Version.
        let version = data[4];
        if version < MIN_VERSION || version > VERSION {
            return Err(FontError::UnsupportedVersion(version));
        }
        // 4. The header of *this* version must fit.
        let table_offset = header_size(version);
        if data.len() < table_offset {
            return Err(FontError::TruncatedFile);
        }
        // 5. Decode header fields.
        let pixel_format = PixelFormat::from_code(data[5])?;
        let height = read_u16_le(data, 6);
        let char_count = read_u32_le(data, 8);
        // v1 has no baseline field: the baseline sits at the bottom of the glyph box.
        let baseline = if version >= 2 {
            read_u16_le(data, 12)
        } else {
            height
        };
        if baseline > height {
            return Err(FontError::InvalidBaseline { baseline, height });
        }
        let header = Header { magic: MAGIC, version, pixel_format, height, char_count, baseline };
        // 6. Per-glyph table must fit after the header.
        let room = data.len() - table_offset;
        if room / GLYPH_ENTRY_SIZE < char_count as usize {
            return Err(FontError::TruncatedFile);
        }
        Ok(Font { header, data, table_offset })
    }

    /// Validate per-glyph data regions (data_offset + data_size within file bounds).
    ///
    /// Called by `new()`; can also be called on a font created with `new_fast()`.
    pub fn validate_glyphs(&self) -> (r: Result<(), FontError>)
        requires
            self.wf(),
        ensures
            r == validate_from(self@.bytes, self@.header, self@.table_start, 0),
    {
        let char_count = self.header.char_count;
        let pixel_format = self.header.pixel_format;
        let height = self.header.height;
        let data_len = self.data.len();
        let mut i: u32 = 0;
        while i < char_count
            invariant
                self.wf(),
                char_count == self@.header.char_count,
                pixel_format == self@.header.pixel_format,
                height == self@.header.height,
                data_len == self@.bytes.len(),
                i <= char_count,
                validate_from(self@.bytes, self@.header, self@.table_start, 0) == validate_from(
                    self@.bytes,
                    self@.header,
                    self@.table_start,
                    i as int,
                ),
            decreases char_count - i,
        {
            proof {
                self.lemma_table_fits();
            }
            let base = self.table_offset + (i as usize) * GLYPH_ENTRY_SIZE;
            let width = read_u16_le(self.data, base + 4);
            let data_offset = read_u32_le(self.data, base + 6);
            let offset = data_offset as usize;
            if offset > data_len {
                return Err(
                    FontError::InvalidDataOffset { offset: data_offset, file_size: data_len },
                );
            }
            let data_size = glyph_data_size(width, height, pixel_format);
            if data_size > data_len - offset {
                return Err(FontError::TruncatedGlyphData { offset: data_offset, required: data_size });
            }
            i = i + 1;
        }
        Ok(())
    }

    /// Return the glyph entry for the given code point: the first entry of the
    /// glyph table with that code, or `None` if the character is not in the font.
    pub fn get_glyph_entry(&self, code: u32) -> (r: Option<GlyphEntry>)
        requires
            self.wf(),
        ensures
            r == find_entry(self@.bytes, self@.table_start, self@.header.char_count as int, code, 0),
            r is None <==> forall|k: int|
                0 <= k < self@.header.char_count ==> #[trigger] self.entry(k).code != code,
            r matches Some(e) ==> exists|j: int|
                0 <= j < self@.header.char_count && e == #[trigger] self.entry(j) && e.code == code
                    && forall|k: int| 0 <= k < j ==> #[trigger] self.entry(k).code != code,
    {
        let char_count = self.header.char_count as usize;
        let mut i: usize = 0;
        while i < char_count
            invariant
                self.wf(),
                char_count == self@.header.char_count,
                i <= char_count,
                find_entry(self@.bytes, self@.table_start, char_count as int, code, 0)
                    == find_entry(self@.bytes, self@.table_start, char_count as int, code, i as int),
            decreases char_count - i,
        {
            proof {
                self.lemma_table_fits();
            }
            let base = self.table_offset + i * GLYPH_ENTRY_SIZE;
            // Read only the code field for the scan.
            let entry_code = read_u32_le(self.data, base);
            if entry_code == code {
                // Match found — deserialize the full entry once.
                let width = read_u16_le(self.data, base + 4);
                let data_offset = read_u32_le(self.data, base + 6);
                proof {
                    self.lemma_lookup_result(code);
                }
                return Some(GlyphEntry { code, width, data_offset });
            }
            i = i + 1;
        }
        proof {
            self.lemma_lookup_result(code);
        }
        None
    }

    /// The data region of glyph `i`.
    pub open spec fn block(&self, i: int) -> Seq<u8> {
        let e = self.entry(i);
        self@.bytes.subrange(
            e.data_offset as int,
            e.data_offset + spec_glyph_data_size(
                e.width as int,
                self@.header.height as int,
                self@.header.pixel_format,
            ),
        )
    }

    /// The data region of a glyph entry.
    pub open spec fn block_of(&self, e: GlyphEntry) -> Seq<u8> {
        self@.bytes.subrange(
            e.data_offset as int,
            e.data_offset + spec_glyph_data_size(
                e.width as int,
                self@.header.height as int,
                self@.header.pixel_format,
            ),
        )
    }

    /// The (code, width) of every glyph, in table order.
    pub open spec fn glyph_list(&self) -> Seq<(u32, u16)> {
        Seq::new(
            self@.header.char_count as nat,
            |i: int| (self.entry(i).code, self.entry(i).width),
        )
    }

    /// The data region of every glyph, in table order.
    pub open spec fn block_list(&self) -> Seq<Seq<u8>> {
        Seq::new(self@.header.char_count as nat, |i: int| self.block(i))
    }

    /// The font written canonically: same header fields and glyphs, data
    /// regions laid out in table order right after the table.
    pub open spec fn canonical_bytes(&self) -> Seq<u8> {
        canonical_image(
            self@.header.version,
            self@.header.pixel_format,
            self@.header.height,
            self@.header.baseline,
            self.glyph_list(),
            self.block_list(),
        )
    }

    /// The glyph regions of a canonical rewrite start at these offsets.
    pub open spec fn canonical_start(&self, i: int) -> int {
        block_start(
            self.block_list(),
            spec_header_size(self@.header.version) + 10 * self@.header.char_count,
            i,
        )
    }

    /// Reads glyph table entry `i`.
    fn read_entry(&self, i: usize) -> (e: GlyphEntry)
        requires
            self.wf(),
            i < self@.header.char_count,
        ensures
            e == self.entry(i as int),
    {
        proof {
            self.lemma_table_fits();
        }
        let base = self.table_offset + i * GLYPH_ENTRY_SIZE;
        let code = read_u32_le(self.data, base);
        let width = read_u16_le(self.data, base + 4);
        let data_offset = read_u32_le(self.data, base + 6);
        GlyphEntry { code, width, data_offset }
    }

    /// Serialize the font: header (of the font's version), glyph table, and
    /// the glyph data regions laid out one after the other in table order.
    pub fn to_bytes(&self) -> (r: Vec<u8>)
        requires
            self.wf(),
            validate_from(self@.bytes, self@.header, self@.table_start, 0) is Ok,
            self.canonical_start(self@.header.char_count as int) <= usize::MAX,
        ensures
            r@ == self.canonical_bytes(),
    {
        proof {
            self.lemma_table_fits();
            self.lemma_validated_blocks(0);
        }
        let n = self.header.char_count as usize;
        let start = self.table_offset + n * GLYPH_ENTRY_SIZE;
        let ghost blocks = self.block_list();
        let ghost glyphs = self.glyph_list();
        let mut entries: Vec<GlyphEntry> = Vec::new();
        let mut data: Vec<u8> = Vec::new();
        let mut cursor: usize = start;
        let mut i: usize = 0;
        while i < n
            invariant
                self.wf(),
                n == self@.header.char_count,
                blocks == self.block_list(),
                glyphs == self.glyph_list(),
                start == spec_header_size(self@.header.version) + 10 * n,
                forall|k: int|
                    0 <= k < n ==> self.entry(k).data_offset + spec_glyph_data_size(
                        #[trigger] self.entry(k).width as int,
                        self@.header.height as int,
                        self@.header.pixel_format,
                    ) <= self@.bytes.len(),
                block_start(blocks, start as int, n as int) <= usize::MAX,
                i <= n,
                cursor == block_start(blocks, start as int, i as int),
                entries@.len() == i,
                forall|k: int|
                    0 <= k < i ==> #[trigger] entries@[k] == (GlyphEntry {
                        code: glyphs[k].0,
                        width: glyphs[k].1,
                        data_offset: block_start(blocks, start as int, k) as u32,
                    }),
                data@ == concat_blocks(blocks, i as int),
            decreases n - i,
        {
            let e = self.read_entry(i);
            let bytes = self.glyph_data(&e);
            proof {
                self.lemma_block_start_mono(start as int, i as int + 1, n as int);
            }
            entries.push(GlyphEntry { code: e.code, width: e.width, data_offset: cursor as u32 });
            append_bytes(&mut data, bytes);
            cursor = cursor + bytes.len();
            i = i + 1;
        }
        assert(entries@ =~= laid_out_entries(glyphs, blocks, start as int));
        proof {
            reveal(canonical_image);
        }
        write_font(
            self.header.version,
            self.header.pixel_format,
            self.header.height,
            self.header.baseline,
            &entries,
            &data,
        )
    }

    /// Serializing a validated font and parsing the result gives back the same
    /// header, the same glyph codes and widths in the same order, and the same
    /// bytes for every glyph (each region at its canonical offset).
    #[verifier::rlimit(60)]
    pub proof fn lemma_to_bytes_roundtrip(&self)
        requires
            self.wf(),
            validate_from(self@.bytes, self@.header, self@.table_start, 0) is Ok,
            forall|i: int|
                0 <= i < self@.header.char_count ==> #[trigger] self.canonical_start(i)
                    <= u32::MAX,
        ensures
            parse_font(self.canonical_bytes()) == Ok::<Header, FontError>(self@.header),
            forall|i: int|
                0 <= i < self@.header.char_count ==> #[trigger] entry_at(
                    self.canonical_bytes(),
                    self@.table_start,
                    i,
                ) == (GlyphEntry {
                    code: self.entry(i).code,
                    width: self.entry(i).width,
                    data_offset: self.canonical_start(i) as u32,
                }),
            forall|i: int|
                0 <= i < self@.header.char_count ==> #[trigger] self.canonical_bytes().subrange(
                    self.canonical_start(i),
                    self.canonical_start(i) + self.block(i).len(),
                ) == self.block(i),
    {
        let glyphs = self.glyph_list();
        let blocks = self.block_list();
        let h = self@.header;
        let n = h.char_count as int;
        let hs = spec_header_size(h.version);
        self.lemma_block_sizes();
        self.lemma_header_facts();
        assert(glyphs.len() == n && blocks.len() == n);
        assert forall|i: int| 0 <= i < blocks.len() implies #[trigger] block_start(
            blocks,
            hs + 10 * glyphs.len(),
            i,
        ) <= u32::MAX by {
            assert(self.canonical_start(i) <= u32::MAX);
        }
        lemma_read_canonical(h.version, h.pixel_format, h.height, h.baseline, glyphs, blocks);
        assert(self@.table_start == hs);
        assert forall|i: int| 0 <= i < n implies #[trigger] self.canonical_bytes().subrange(
            self.canonical_start(i),
            self.canonical_start(i) + self.block(i).len(),
        ) == self.block(i) by {
            assert(blocks[i] == self.block(i));
        }
    }

    /// The header of a well-formed font has a supported version, and a v1
    /// header reports the baseline at the bottom of the glyph box.
    proof fn lemma_header_facts(&self)
        requires
            self.wf(),
        ensures
            self@.header.version == 1 || self@.header.version == 2,
            self@.header.magic == MAGIC,
            self@.header.version == 1 ==> self@.header.baseline == self@.header.height,
            self@.header == (Header {
                magic: MAGIC,
                version: self@.header.version,
                pixel_format: self@.header.pixel_format,
                height: self@.header.height,
                char_count: self@.header.char_count,
                baseline: if self@.header.version == 2 {
                    self@.header.baseline
                } else {
                    self@.header.height
                },
            }),
    {
    }

    /// Each data block of a validated font has its glyph's data size.
    proof fn lemma_block_sizes(&self)
        requires
            self.wf(),
            validate_from(self@.bytes, self@.header, self@.table_start, 0) is Ok,
        ensures
            forall|i: int|
                0 <= i < self.block_list().len() ==> #[trigger] self.block_list()[i].len()
                    == spec_glyph_data_size(
                    self.glyph_list()[i].1 as int,
                    self@.header.height as int,
                    self@.header.pixel_format,
                ),
    {
        self.lemma_validated_blocks(0);
        assert forall|i: int| 0 <= i < self.block_list().len() implies #[trigger] self.block_list()[i].len()
            == spec_glyph_data_size(
            self.glyph_list()[i].1 as int,
            self@.header.height as int,
            self@.header.pixel_format,
        ) by {
            let w = self.entry(i).width as int;
            let h = self@.header.height as int;
            assert(spec_glyph_data_size(w, h, self@.header.pixel_format) >= 0) by {
                assert(w * h >= 0) by (nonlinear_arith)
                    requires
                        w >= 0,
                        h >= 0,
                ;
            }
        }
    }

    /// Every glyph's data region lies in the bytes (what `new` checks).
    pub open spec fn validated(&self) -> bool {
        &&& self.wf()
        &&& validate_from(self@.bytes, self@.header, self@.table_start, 0) is Ok
    }

    /// Looking a code up scans the whole table in order, whatever the order of
    /// the codes in it: from index `i` on, the lookup finds the entry at the
    /// first index `j >= i` whose code matches, and finds nothing when no entry
    /// from `i` on has that code.
    pub proof fn lemma_lookup_from(&self, code: u32, i: int)
        requires
            0 <= i,
        ensures
            (forall|k: int|
                i <= k < self@.header.char_count ==> #[trigger] self.entry(k).code != code)
                ==> find_entry(self@.bytes, self@.table_start, self@.header.char_count as int, code, i)
                is None,
            forall|j: int|
                i <= j < self@.header.char_count && #[trigger] self.entry(j).code == code && (forall|
                    k: int,
                | i <= k < j ==> #[trigger] self.entry(k).code != code) ==> find_entry(
                    self@.bytes,
                    self@.table_start,
                    self@.header.char_count as int,
                    code,
                    i,
                ) == Some(self.entry(j)),
        decreases self@.header.char_count - i,
    {
        if i < self@.header.char_count {
            self.lemma_lookup_from(code, i + 1);
            assert forall|j: int|
                i <= j < self@.header.char_count && #[trigger] self.entry(j).code == code && (forall|
                    k: int,
                | i <= k < j ==> #[trigger] self.entry(k).code != code) implies find_entry(
                self@.bytes,
                self@.table_start,
                self@.header.char_count as int,
                code,
                i,
            ) == Some(self.entry(j)) by {
                if j > i {
                    assert(self.entry(i).code != code);
                }
            }
            if forall|k: int| i <= k < self@.header.char_count ==> #[trigger] self.entry(k).code != code {
                assert(self.entry(i).code != code);
            }
        }
    }

    /// The lookup of a code gives the first table entry with that code, and
    /// `None` exactly when no entry has it.
    pub proof fn lemma_lookup_result(&self, code: u32)
        ensures
            ({
                let r = find_entry(self@.bytes, self@.table_start, self@.header.char_count as int, code, 0);
                &&& r is None <==> forall|k: int|
                    0 <= k < self@.header.char_count ==> #[trigger] self.entry(k).code != code
                &&& r matches Some(e) ==> exists|j: int|
                    0 <= j < self@.header.char_count && e == #[trigger] self.entry(j) && e.code == code
                        && forall|k: int| 0 <= k < j ==> #[trigger] self.entry(k).code != code
            }),
    {
        self.lemma_lookup_from(code, 0);
        self.lemma_find_entry_from(code, 0);
        let n = self@.header.char_count as int;
        let r = find_entry(self@.bytes, self@.table_start, n, code, 0);
        if !(forall|k: int| 0 <= k < n ==> #[trigger] self.entry(k).code != code) {
            let k0 = choose|k: int| 0 <= k < n && #[trigger] self.entry(k).code == code;
            let j = self.lemma_first_match(code, k0);
            assert(r == Some(self.entry(j)));
        }
    }

    /// Below any index whose entry has `code` there is a first such index.
    proof fn lemma_first_match(&self, code: u32, k0: int) -> (j: int)
        requires
            0 <= k0 < self@.header.char_count,
            self.entry(k0).code == code,
        ensures
            0 <= j <= k0,
            self.entry(j).code == code,
            forall|k: int| 0 <= k < j ==> #[trigger] self.entry(k).code != code,
        decreases k0,
    {
        if exists|k: int| 0 <= k < k0 && #[trigger] self.entry(k).code == code {
            let k1 = choose|k: int| 0 <= k < k0 && #[trigger] self.entry(k).code == code;
            self.lemma_first_match(code, k1)
        } else {
            k0
        }
    }

    /// An entry found by code is one of the table's entries, and in a
    /// validated font its data region lies in the bytes.
    pub proof fn lemma_found_entry(&self, code: u32)
        requires
            self.validated(),
        ensures
            find_entry(self@.bytes, self@.table_start, self@.header.char_count as int, code, 0) matches Some(e)
                ==> {
                &&& e.code == code
                &&& e.data_offset + spec_glyph_data_size(
                    e.width as int,
                    self@.header.height as int,
                    self@.header.pixel_format,
                ) <= self@.bytes.len()
            },
    {
        self.lemma_validated_blocks(0);
        self.lemma_find_entry_from(code, 0);
    }

    proof fn lemma_find_entry_from(&self, code: u32, i: int)
        requires
            0 <= i,
        ensures
            find_entry(self@.bytes, self@.table_start, self@.header.char_count as int, code, i) matches Some(e)
                ==> exists|k: int| i <= k < self@.header.char_count && e == #[trigger] self.entry(k) && e.code == code,
        decreases self@.header.char_count - i,
    {
        if i < self@.header.char_count {
            if self.entry(i).code == code {
                assert(self.entry(i) == self.entry(i));
            } else {
                self.lemma_find_entry_from(code, i + 1);
            }
        }
    }

    /// Block starts only grow.
    proof fn lemma_block_start_mono(&self, start: int, i: int, j: int)
        requires
            0 <= i <= j <= self@.header.char_count,
        ensures
            block_start(self.block_list(), start, i) <= block_start(self.block_list(), start, j),
        decreases j - i,
    {
        if i < j {
            self.lemma_block_start_mono(start, i, j - 1);
        }
    }

    /// A font whose glyphs validate from `i` on has every glyph region from
    /// `i` on inside its bytes.
    proof fn lemma_validated_blocks(&self, i: int)
        requires
            self.wf(),
            0 <= i,
            validate_from(self@.bytes, self@.header, self@.table_start, i) is Ok,
        ensures
            forall|k: int|
                i <= k < self@.header.char_count ==> self.entry(k).data_offset
                    + spec_glyph_data_size(
                    #[trigger] self.entry(k).width as int,
                    self@.header.height as int,
                    self@.header.pixel_format,
                ) <= self@.bytes.len(),
        decreases self@.header.char_count - i,
    {
        if i < self@.header.char_count {
            self.lemma_validated_blocks(i + 1);
        }
    }

    /// Return a slice pointing to the raw glyph data for the given entry.
    pub fn glyph_data(&self, entry: &GlyphEntry) -> (r: &[u8])
        requires
            self.wf(),
            entry.data_offset + spec_glyph_data_size(
                entry.width as int,
                self@.header.height as int,
                self@.header.pixel_format,
            ) <= self@.bytes.len(),
        ensures
            r@ == self@.bytes.subrange(
                entry.data_offset as int,
                entry.data_offset + spec_glyph_data_size(
                    entry.width as int,
                    self@.header.height as int,
                    self@.header.pixel_format,
                ),
            ),
    {
        proof {
            self.lemma_table_fits();
        }
        let off = entry.data_offset as usize;
        let len = glyph_data_size(entry.width, self.header.height, self.header.pixel_format);
        slice_subrange(self.data, off, off + len)
    }
}

/// Calculate the byte size of glyph data given dimensions and pixel format:
/// one byte per pixel for `AntiAliased`, one bit per pixel (rounded up to whole
/// bytes) for `Monochrome`.
pub fn glyph_data_size(width: u16, height: u16, pixel_format: PixelFormat) -> (size: usize)
    ensures
        size == spec_glyph_data_size(width as int, height as int, pixel_format),
{
    proof {
        assert(width as int * height as int <= 65535 * 65535) by (nonlinear_arith)
            requires
                width <= 65535,
                height <= 65535,
        ;
    }
    let px_count = width as usize * height as usize;
    match pixel_format {
        PixelFormat::AntiAliased => px_count,
        PixelFormat::Monochrome => (px_count + 7) / 8,
    }
}

} // verus!
