//! Binary font format `EFM1`: parsing and validation of font files, building
//! font files from RGBA character atlases, and the layout and pixel logic used
//! to render text with a parsed font.

pub mod error;
pub mod format;
pub mod encode;
pub mod convert;
pub mod text;
pub mod render;
pub mod atlas;
pub mod color;
