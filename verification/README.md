# font_maker

A verified library for the `EFM1` binary font format used to draw custom fonts
on embedded displays, and a command-line tool around it.

- `src/` is the library, written and proved with Verus:
  - `format` parses and validates font files (`Font::new`, `Font::new_fast`),
    looks glyphs up and serializes a parsed font back to its canonical bytes;
  - `encode` writes the header, glyph table and data blocks of a font file;
  - `convert` finds character regions in an RGBA atlas, assigns their codes and
    builds a font from them, in 8bpp or 1bpp;
  - `atlas` decodes PNG atlases (through the `png` crate) and converts canvas
    pixels with caller-measured character boxes;
  - `render` lays text out with a parsed font and produces the pixels of each
    glyph, blended over a background;
  - `color` parses color arguments; `text` holds string helpers and messages.
- `app/` is the `font-maker-cli` program: argument handling, file I/O, the
  `embedded-graphics` text renderer and preview, and the WASM entry points.
- `tests/` exercises the library on concrete fonts and atlases.
