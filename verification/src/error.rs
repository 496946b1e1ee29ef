use vstd::prelude::*;

verus! {

/// Errors that can occur when parsing a binary font file.
#[derive(Debug, Clone, PartialEq, Eq)]
pub enum FontError {
    /// File is empty or shorter than the header (or the glyph table) it announces.
    TruncatedFile,
    /// Magic bytes are not `"EFM1"`.
    InvalidMagic,
    /// Version byte is not a supported version.
    UnsupportedVersion(u8),
    /// Byte at the pixel_format position is not a valid format code.
    InvalidPixelFormat(u8),
    /// The header's baseline lies below its glyph box (`baseline > height`).
    InvalidBaseline { baseline: u16, height: u16 },
    /// A per-glyph data_offset points outside the file bounds.
    InvalidDataOffset { offset: u32, file_size: usize },
    /// Glyph data extends beyond the end of the file.
    TruncatedGlyphData { offset: u32, required: usize },
}

} // verus!
