use vstd::prelude::*;
use crate::format::{find_entry, spec_glyph_data_size, Font, GlyphEntry, PixelFormat};
use crate::text::chars_of;

verus! {

/// An RGB color with 8 bits per channel.
pub type Rgb = (u8, u8, u8);

/// Source-over blend of one channel: `alpha` of `fg` over `bg`, rounded down.
pub open spec fn spec_blend(bg: u8, fg: u8, alpha: u8) -> int {
    (bg as int * (255 - alpha as int) + fg as int * alpha as int) / 255
}

/// Blends one color channel: `alpha` of `fg` over `bg` (src-over, rounded down).
pub fn blend_channel(bg: u8, fg: u8, alpha: u8) -> (r: u8)
    ensures
        r == spec_blend(bg, fg, alpha),
{
    let a = alpha as u16;
    proof {
        assert(bg as int * (255 - a as int) + fg as int * a as int <= 255 * 255) by (nonlinear_arith)
            requires
                bg <= 255,
                fg <= 255,
                a <= 255,
        ;
        assert(bg as int * (255 - a as int) + fg as int * a as int >= 0) by (nonlinear_arith)
            requires
                a <= 255,
        ;
    }
    ((bg as u16 * (255 - a) + fg as u16 * a) / 255) as u8
}

/// The color of a pixel of the given alpha drawn in `fg` over `bg`.
pub open spec fn spec_blend_rgb(bg: Rgb, fg: Rgb, alpha: u8) -> Rgb {
    (
        spec_blend(bg.0, fg.0, alpha) as u8,
        spec_blend(bg.1, fg.1, alpha) as u8,
        spec_blend(bg.2, fg.2, alpha) as u8,
    )
}

/// One pixel to draw: position and color.
#[derive(Debug, Clone, Copy, PartialEq, Eq)]
pub struct GlyphPixel {
    pub x: i32,
    pub y: i32,
    pub color: Rgb,
}

/// The pixels of one glyph, produced one at a time, without allocation.
///
/// Anti-aliased data yields every pixel of nonzero alpha, blended over the
/// background color; monochrome data yields every set bit in the foreground
/// color. Pixels come in row-major order.
pub struct GlyphPixels<'a> {
    data: &'a [u8],
    width: usize,
    height: usize,
    pos_x: i32,
    pos_y: i32,
    fg: Rgb,
    bg: Rgb,
    fmt: PixelFormat,
    idx: usize,
}

/// What a glyph pixel cursor stands for.
pub struct GlyphPixelsView {
    pub data: Seq<u8>,
    pub width: int,
    pub height: int,
    pub pos_x: int,
    pub pos_y: int,
    pub fg: Rgb,
    pub bg: Rgb,
    pub fmt: PixelFormat,
    /// Index of the next pixel to look at.
    pub idx: int,
}

impl<'a> View for GlyphPixels<'a> {
    type V = GlyphPixelsView;

    closed spec fn view(&self) -> GlyphPixelsView {
        GlyphPixelsView {
            data: self.data@,
            width: self.width as int,
            height: self.height as int,
            pos_x: self.pos_x as int,
            pos_y: self.pos_y as int,
            fg: self.fg,
            bg: self.bg,
            fmt: self.fmt,
            idx: self.idx as int,
        }
    }
}

impl GlyphPixelsView {
    /// Dimensions and position keep every pixel's arithmetic in range.
    pub open spec fn wf(&self) -> bool {
        &&& 0 <= self.width <= 65535
        &&& 0 <= self.height <= 65535
        &&& self.fmt == PixelFormat::AntiAliased ==> self.data.len() <= self.width * self.height
        &&& self.pos_x + self.width <= i32::MAX + 1
        &&& self.pos_y + self.height <= i32::MAX + 1
        &&& i32::MIN <= self.pos_x
        &&& i32::MIN <= self.pos_y
        &&& 0 <= self.idx
    }

    /// The monochrome bit of pixel `i` (most significant bit first).
    pub open spec fn bit_at(&self, i: int) -> bool {
        (self.data[i / 8] >> ((7 - i % 8) as u8)) & 1u8 != 0u8
    }

    /// The pixel drawn for index `i`.
    pub open spec fn pixel_at(&self, i: int) -> GlyphPixel {
        GlyphPixel {
            x: (self.pos_x + i % self.width) as i32,
            y: (self.pos_y + i / self.width) as i32,
            color: match self.fmt {
                PixelFormat::AntiAliased => spec_blend_rgb(self.bg, self.fg, self.data[i]),
                PixelFormat::Monochrome => self.fg,
            },
        }
    }

    /// Scanning from index `i`: the next pixel drawn (if any) and the index
    /// after the scan.
    ///
    /// Anti-aliased: the first index `>= i` below `data.len()` with nonzero
    /// alpha. Monochrome: the first index `>= i` below `width * height` whose
    /// bit is set; the scan stops (with no pixel) at an index whose byte is past
    /// the end of the data.
    pub open spec fn scan(&self, i: int) -> (Option<GlyphPixel>, int)
        decreases
                (match self.fmt {
                PixelFormat::AntiAliased => self.data.len() - i,
                PixelFormat::Monochrome => self.width * self.height - i,
            }),
    {
        match self.fmt {
            PixelFormat::AntiAliased => if i < 0 || i >= self.data.len() {
                (None, i)
            } else if self.data[i] == 0 {
                self.scan(i + 1)
            } else {
                (Some(self.pixel_at(i)), i + 1)
            },
            PixelFormat::Monochrome => if i < 0 || i >= self.width * self.height {
                (None, i)
            } else if i / 8 >= self.data.len() {
                (None, i + 1)
            } else if !self.bit_at(i) {
                self.scan(i + 1)
            } else {
                (Some(self.pixel_at(i)), i + 1)
            },
        }
    }
}

impl GlyphPixelsView {
    /// The index where scanning ends: the data length for anti-aliased data,
    /// `width * height` for monochrome data.
    pub open spec fn scan_limit(&self) -> int {
        match self.fmt {
            PixelFormat::AntiAliased => self.data.len() as int,
            PixelFormat::Monochrome => self.width * self.height,
        }
    }

    /// Whether pixel `k` is drawn: nonzero alpha (anti-aliased), or a set bit
    /// whose byte lies in the data (monochrome).
    pub open spec fn drawn(&self, k: int) -> bool {
        match self.fmt {
            PixelFormat::AntiAliased => 0 <= k < self.data.len() && self.data[k] != 0,
            PixelFormat::Monochrome => 0 <= k < self.width * self.height && k / 8 < self.data.len()
                && self.bit_at(k),
        }
    }

    /// The pixels drawn from index `i` on, in index order.
    pub open spec fn pixels_from(&self, i: int) -> Seq<GlyphPixel>
        decreases self.scan_limit() - i,
    {
        if i >= self.scan_limit() {
            Seq::<GlyphPixel>::empty()
        } else if self.drawn(i) {
            seq![self.pixel_at(i)] + self.pixels_from(i + 1)
        } else {
            self.pixels_from(i + 1)
        }
    }

    /// The results of `n` successive scans starting at index `i`, each one
    /// starting where the previous one ended.
    pub open spec fn scan_calls(&self, i: int, n: nat) -> Seq<Option<GlyphPixel>>
        decreases n,
    {
        if n == 0 {
            Seq::<Option<GlyphPixel>>::empty()
        } else {
            seq![self.scan(i).0] + self.scan_calls(self.scan(i).1, (n - 1) as nat)
        }
    }

    /// What one scan from `i` draws: the pixel of some index `k >= i` (the scan
    /// ends just after it) at column `k % width` and row `k / width` from the
    /// glyph's corner. For anti-aliased data `k` has nonzero alpha `a`, and each
    /// channel of the color is `a` of the foreground's same channel over the
    /// background's, rounded down, so alpha 255 gives the foreground itself; a
    /// monochrome pixel is a set bit drawn in the foreground color.
    pub proof fn lemma_scan_pixel(&self, i: int)
        requires
            self.wf(),
            0 <= i,
        ensures
            self.scan(i).0 matches Some(p) ==> {
                let k = self.scan(i).1 - 1;
                &&& i <= k
                &&& p.x == self.pos_x + k % self.width
                &&& p.y == self.pos_y + k / self.width
                &&& self.fmt == PixelFormat::AntiAliased ==> {
                    let a = self.data[k] as int;
                    &&& 0 <= k < self.data.len()
                    &&& a != 0
                    &&& p.color.0 == (self.bg.0 * (255 - a) + self.fg.0 * a) / 255
                    &&& p.color.1 == (self.bg.1 * (255 - a) + self.fg.1 * a) / 255
                    &&& p.color.2 == (self.bg.2 * (255 - a) + self.fg.2 * a) / 255
                    &&& a == 255 ==> p.color == self.fg
                }
                &&& self.fmt == PixelFormat::Monochrome ==> {
                    &&& k < self.width * self.height
                    &&& k / 8 < self.data.len()
                    &&& self.bit_at(k)
                    &&& p.color == self.fg
                }
            },
        decreases self.scan_limit() - i,
    {
        if i < self.scan_limit() {
            let (r, j) = self.scan(i);
            if self.drawn(i) {
                let k = i;
                let w = self.width;
                let h = self.height;
                assert(k < w * h) by {
                    if self.fmt == PixelFormat::AntiAliased {
                        assert(k < self.data.len());
                    }
                }
                assert(0 <= k % w < w && k / w < h && 0 <= k / w) by (nonlinear_arith)
                    requires
                        0 <= k < w * h,
                        0 <= w,
                        0 <= h,
                ;
                if self.fmt == PixelFormat::AntiAliased {
                    let a = self.data[k];
                    lemma_blend_bounds(self.bg.0, self.fg.0, a);
                    lemma_blend_bounds(self.bg.1, self.fg.1, a);
                    lemma_blend_bounds(self.bg.2, self.fg.2, a);
                }
            } else if self.fmt == PixelFormat::Monochrome && i / 8 >= self.data.len() {
            } else {
                self.lemma_scan_pixel(i + 1);
            }
        }
    }

    /// Past the end of monochrome data nothing more is drawn.
    proof fn lemma_nothing_past_data(&self, i: int)
        requires
            self.fmt == PixelFormat::Monochrome,
            0 <= i,
            i / 8 >= self.data.len(),
        ensures
            self.pixels_from(i).len() == 0,
        decreases self.scan_limit() - i,
    {
        if i < self.scan_limit() {
            assert((i + 1) / 8 >= i / 8);
            self.lemma_nothing_past_data(i + 1);
        }
    }

    /// One scan from `i` gives the first pixel drawn from `i` on and ends
    /// where the rest of them start; when none is left it gives `None` and
    /// none is left after it either.
    proof fn lemma_scan_step(&self, i: int)
        requires
            0 <= i,
        ensures
            self.scan(i).1 >= 0,
            self.pixels_from(i).len() == 0 ==> self.scan(i).0 is None && self.pixels_from(
                self.scan(i).1,
            ).len() == 0,
            self.pixels_from(i).len() > 0 ==> self.scan(i).0 == Some(self.pixels_from(i)[0])
                && self.pixels_from(self.scan(i).1) == self.pixels_from(i).drop_first(),
        decreases self.scan_limit() - i,
    {
        if i >= self.scan_limit() {
        } else if self.fmt == PixelFormat::Monochrome && i / 8 >= self.data.len() {
            self.lemma_nothing_past_data(i);
            assert((i + 1) / 8 >= i / 8);
            self.lemma_nothing_past_data(i + 1);
        } else if self.drawn(i) {
            assert(self.pixels_from(i).drop_first() =~= self.pixels_from(i + 1));
        } else {
            self.lemma_scan_step(i + 1);
        }
    }

    /// Successive scans from `i` give the pixels drawn from `i` on, one per
    /// scan and in index order, and `None` on every scan after the last one.
    pub proof fn lemma_scan_calls(&self, i: int, n: nat)
        requires
            0 <= i,
        ensures
            self.scan_calls(i, n).len() == n,
            forall|k: int|
                0 <= k < n ==> #[trigger] self.scan_calls(i, n)[k] == if k < self.pixels_from(i).len() {
                    Some(self.pixels_from(i)[k])
                } else {
                    None
                },
        decreases n,
    {
        if n > 0 {
            let j = self.scan(i).1;
            self.lemma_scan_step(i);
            self.lemma_scan_calls(j, (n - 1) as nat);
            let calls = self.scan_calls(i, n);
            let rest = self.scan_calls(j, (n - 1) as nat);
            assert(calls == seq![self.scan(i).0] + rest);
            assert forall|k: int| 0 <= k < n implies #[trigger] calls[k] == if k < self.pixels_from(
                i,
            ).len() {
                Some(self.pixels_from(i)[k])
            } else {
                None
            } by {
                if k > 0 {
                    assert(calls[k] == rest[k - 1]);
                }
            }
        }
    }
}

impl<'a> GlyphPixels<'a> {
    /// A cursor at the first pixel of a glyph `width` × `height` drawn with its
    /// top-left corner at (`pos_x`, `pos_y`).
    pub fn new(
        data: &'a [u8],
        width: u16,
        height: u16,
        pos_x: i32,
        pos_y: i32,
        fg: Rgb,
        bg: Rgb,
        fmt: PixelFormat,
    ) -> (r: Self)
        requires
            fmt == PixelFormat::AntiAliased ==> data@.len() <= width * height,
            pos_x + width <= i32::MAX + 1,
            pos_y + height <= i32::MAX + 1,
        ensures
            r@ == (GlyphPixelsView {
                data: data@,
                width: width as int,
                height: height as int,
                pos_x: pos_x as int,
                pos_y: pos_y as int,
                fg,
                bg,
                fmt,
                idx: 0,
            }),
            r@.wf(),
    {
        GlyphPixels {
            data,
            width: width as usize,
            height: height as usize,
            pos_x,
            pos_y,
            fg,
            bg,
            fmt,
            idx: 0,
        }
    }

    /// The next pixel to draw, or `None` when the glyph is done.
    pub fn next_pixel(&mut self) -> (r: Option<GlyphPixel>)
        requires
            old(self)@.wf(),
        ensures
            final(self)@.wf(),
            (r, final(self)@.idx) == old(self)@.scan(old(self)@.idx),
            final(self)@ == (GlyphPixelsView { idx: final(self)@.idx, ..old(self)@ }),
    {
        let ghost v0 = self@;
        match self.fmt {
            PixelFormat::AntiAliased => {
                while self.idx < self.data.len()
                    invariant
                        v0.wf(),
                        v0 == old(self)@,
                        v0.fmt == PixelFormat::AntiAliased,
                        self@ == (GlyphPixelsView { idx: self@.idx, ..v0 }),
                        self@.idx >= v0.idx,
                        v0.scan(v0.idx) == v0.scan(self@.idx),
                    decreases self.data@.len() - self.idx,
                {
                    let ghost i = self.idx as int;
                    let alpha = self.data[self.idx];
                    proof {
                        assert(i < v0.width * v0.height);
                        assert(i / v0.width < v0.height) by (nonlinear_arith)
                            requires
                                i < v0.width * v0.height,
                                v0.width > 0,
                                i >= 0,
                        ;
                        assert(v0.data[i] == alpha);
                    }
                    let px = (self.idx % self.width) as i32;
                    let py = (self.idx / self.width) as i32;
                    self.idx = self.idx + 1;
                    if alpha == 0 {
                        assert(v0.scan(i) == v0.scan(i + 1));
                        continue;
                    }
                    let blended = (
                        blend_channel(self.bg.0, self.fg.0, alpha),
                        blend_channel(self.bg.1, self.fg.1, alpha),
                        blend_channel(self.bg.2, self.fg.2, alpha),
                    );
                    let p = GlyphPixel { x: self.pos_x + px, y: self.pos_y + py, color: blended };
                    assert(v0.scan(i) == (Some(v0.pixel_at(i)), i + 1));
                    assert(p == v0.pixel_at(i));
                    return Some(p);
                }
                assert(v0.scan(self@.idx) == (None::<GlyphPixel>, self@.idx));
            },
            PixelFormat::Monochrome => {
                proof {
                    assert(self.width * self.height <= 65535 * 65535) by (nonlinear_arith)
                        requires
                            self.width <= 65535,
                            self.height <= 65535,
                    ;
                }
                while self.idx < self.width * self.height
                    invariant
                        v0.wf(),
                        v0 == old(self)@,
                        v0.fmt == PixelFormat::Monochrome,
                        self@ == (GlyphPixelsView { idx: self@.idx, ..v0 }),
                        self@.idx >= v0.idx,
                        v0.scan(v0.idx) == v0.scan(self@.idx),
                        self.width * self.height <= 65535 * 65535,
                    decreases self.width * self.height - self.idx,
                {
                    let bit_idx = self.idx;
                    let ghost i = bit_idx as int;
                    let byte_idx = bit_idx / 8;
                    let bit = (7 - bit_idx % 8) as u8;
                    self.idx = self.idx + 1;
                    if byte_idx >= self.data.len() {
                        assert(v0.scan(i) == (None::<GlyphPixel>, i + 1));
                        return None;
                    }
                    let fg = (self.data[byte_idx] >> bit) & 1 != 0;
                    assert(fg == v0.bit_at(i));
                    if fg {
                        proof {
                            assert(bit_idx / self.width < self.height) by (nonlinear_arith)
                                requires
                                    bit_idx < self.width * self.height,
                                    self.width > 0,
                            ;
                        }
                        let px = (bit_idx % self.width) as i32;
                        let py = (bit_idx / self.width) as i32;
                        let p = GlyphPixel { x: self.pos_x + px, y: self.pos_y + py, color: self.fg };
                        assert(v0.scan(i) == (Some(v0.pixel_at(i)), i + 1));
                        assert(p == v0.pixel_at(i));
                        return Some(p);
                    }
                    assert(v0.scan(i) == v0.scan(i + 1));
                }
                assert(v0.scan(self@.idx) == (None::<GlyphPixel>, self@.idx));
            },
        }
        None
    }
}

/// Character bounds in a text layout.
#[derive(Debug, Clone, Copy, PartialEq, Eq)]
pub struct CharacterBounds {
    /// Character's pixel width (content only).
    pub width: u16,
    /// Font's header height.
    pub height: u16,
}

/// Which row of the text the vertical position refers to.
#[derive(Debug, Clone, Copy, PartialEq, Eq)]
pub enum TextBaseline {
    Top,
    Bottom,
    Middle,
    Alphabetic,
}

/// Text style for rendering with a binary font.
///
/// Generic over the pixel color type; the default character spacing is 2.
#[derive(Debug, Clone)]
pub struct FontTextStyle<'a, C> {
    /// Font reference.
    pub font: &'a Font<'a>,
    /// Text color.
    pub text_color: C,
    /// Background color (optional).
    pub background_color: Option<C>,
    /// Character spacing. Defaults to 2 if None.
    pub char_spacing: Option<u32>,
}

/// A glyph placed by a layout: its table entry and top-left corner.
#[derive(Debug, Clone, PartialEq, Eq)]
pub struct PlacedGlyph {
    pub entry: GlyphEntry,
    pub x: i32,
    pub y: i32,
}

/// The glyphs of a string placed on a line, and where the line continues.
#[derive(Debug, Clone)]
pub struct StringLayout {
    pub glyphs: Vec<PlacedGlyph>,
    pub next_x: i32,
    pub next_y: i32,
}

/// The size a string takes, and where the line continues.
#[derive(Debug, Clone, Copy, PartialEq, Eq)]
pub struct TextMeasure {
    pub width: u32,
    pub height: u32,
    pub next_x: i32,
    pub next_y: i32,
}

/// The glyph entry a font has for a character.
pub open spec fn glyph_for<'a>(font: &Font<'a>, c: char) -> Option<GlyphEntry> {
    find_entry(font@.bytes, font@.table_start, font@.header.char_count as int, c as u32, 0)
}

/// Horizontal advance over the first `k` characters: glyph width plus
/// spacing for each character the font has; other characters are skipped.
pub open spec fn advance<'a>(font: &Font<'a>, chars: Seq<char>, k: int, spacing: int) -> int
    decreases k,
{
    if k <= 0 {
        0
    } else {
        advance(font, chars, k - 1, spacing) + match glyph_for(font, chars[k - 1]) {
            Some(e) => e.width + spacing,
            None => 0,
        }
    }
}

/// Measured width over the first `k` characters: glyph widths of the
/// characters the font has, plus spacing after each of them that is not the
/// last character of the text.
pub open spec fn measured_width<'a>(font: &Font<'a>, chars: Seq<char>, k: int, spacing: int) -> int
    decreases k,
{
    if k <= 0 {
        0
    } else {
        measured_width(font, chars, k - 1, spacing) + match glyph_for(font, chars[k - 1]) {
            Some(e) => e.width + if k - 1 < chars.len() - 1 {
                spacing
            } else {
                0
            },
            None => 0,
        }
    }
}

/// The glyphs placed for the first `k` characters, starting at `x0` on row `y`.
pub open spec fn placements<'a>(
    font: &Font<'a>,
    chars: Seq<char>,
    k: int,
    x0: int,
    y: int,
    spacing: int,
) -> Seq<PlacedGlyph>
    decreases k,
{
    if k <= 0 {
        Seq::<PlacedGlyph>::empty()
    } else {
        placements(font, chars, k - 1, x0, y, spacing) + match glyph_for(font, chars[k - 1]) {
            Some(e) => seq![
                PlacedGlyph { entry: e, x: (x0 + advance(font, chars, k - 1, spacing)) as i32, y: y as i32 },
            ],
            None => Seq::<PlacedGlyph>::empty(),
        }
    }
}

/// The vertical offset of the top of the glyph box from the anchor row.
pub open spec fn baseline_offset(baseline: TextBaseline, height: int) -> int {
    match baseline {
        TextBaseline::Top => 0,
        TextBaseline::Alphabetic => 0,
        TextBaseline::Middle => -(height / 2),
        TextBaseline::Bottom => -height,
    }
}

/// Every partial advance of a layout fits `i32`, as does each step.
pub open spec fn layout_fits<'a>(font: &Font<'a>, chars: Seq<char>, x0: int, spacing: int) -> bool {
    forall|k: int|
        0 <= k <= chars.len() ==> i32::MIN <= x0 + #[trigger] advance(font, chars, k, spacing)
            <= i32::MAX && (k < chars.len() ==> (glyph_for(font, chars[k]) matches Some(e)
            ==> e.width + spacing <= i32::MAX))
}

/// The default spacing applies when none is set.
pub open spec fn spacing_of(char_spacing: Option<u32>) -> u32 {
    match char_spacing {
        Some(s) => s,
        None => 2,
    }
}

impl<'a, C> FontTextStyle<'a, C> {
    /// Create a new text style with the given font and text color.
    pub fn new(font: &'a Font<'a>, text_color: C) -> (r: Self)
        ensures
            r.font == font,
            r.text_color == text_color,
            r.background_color == None::<C>,
            r.char_spacing == None::<u32>,
    {
        Self { font, text_color, background_color: None, char_spacing: None }
    }

    /// Set additional character spacing.
    pub fn char_spacing(self, spacing: u32) -> (r: Self)
        ensures
            r == (Self { char_spacing: Some(spacing), ..self }),
    {
        let mut style = self;
        style.char_spacing = Some(spacing);
        style
    }

    /// Set background color.
    pub fn background_color(self, color: C) -> (r: Self)
        ensures
            r == (Self { background_color: Some(color), ..self }),
    {
        let mut style = self;
        style.background_color = Some(color);
        style
    }

    /// Line height: the font's glyph height.
    pub fn line_height(&self) -> (h: u32)
        ensures
            h == self.font@.header.height,
    {
        self.font.header().height as u32
    }

    /// Places the glyphs of `text` starting at (`x`, `y`) anchored at
    /// `baseline`: characters the font has are placed left to right, each
    /// advancing by its width plus the spacing (as `i32`); other characters are
    /// skipped. The line continues at the final x, on row `y`.
    pub fn layout_string(&self, text: &str, x: i32, y: i32, baseline: TextBaseline) -> (r: StringLayout)
        requires
            self.font.wf(),
            i32::MIN <= y + baseline_offset(baseline, self.font@.header.height as int),
            layout_fits(self.font, text@, x as int, spacing_of(self.char_spacing) as i32 as int),
        ensures
            r.glyphs@ == placements(
                self.font,
                text@,
                text@.len() as int,
                x as int,
                y + baseline_offset(baseline, self.font@.header.height as int),
                spacing_of(self.char_spacing) as i32 as int,
            ),
            r.next_x == x + advance(
                self.font,
                text@,
                text@.len() as int,
                spacing_of(self.char_spacing) as i32 as int,
            ),
            r.next_y == y,
            baseline is Top || baseline is Alphabetic ==> forall|i: int|
                0 <= i < r.glyphs@.len() ==> (#[trigger] r.glyphs@[i]).y == y,
            baseline is Middle ==> forall|i: int|
                0 <= i < r.glyphs@.len() ==> (#[trigger] r.glyphs@[i]).y == y - self.font@.header.height
                    / 2,
            baseline is Bottom ==> forall|i: int|
                0 <= i < r.glyphs@.len() ==> (#[trigger] r.glyphs@[i]).y == y - self.font@.header.height,
    {
        proof {
            lemma_placements_row(
                self.font,
                text@,
                text@.len() as int,
                x as int,
                y + baseline_offset(baseline, self.font@.header.height as int),
                spacing_of(self.char_spacing) as i32 as int,
            );
        }
        let height = self.font.header().height as i32;
        let y_offset = match baseline {
            TextBaseline::Top => 0,
            TextBaseline::Alphabetic => 0,
            TextBaseline::Middle => -(height / 2),
            TextBaseline::Bottom => -height,
        };
        let row = y + y_offset;
        let spacing = match self.char_spacing {
            Some(s) => s,
            None => 2,
        } as i32;
        let chars = chars_of(text);
        let ghost sp = spacing as int;
        let mut placed: Vec<PlacedGlyph> = Vec::new();
        let mut cur_x = x;
        let mut i: usize = 0;
        while i < chars.len()
            invariant
                self.font.wf(),
                chars@ == text@,
                sp == spacing_of(self.char_spacing) as i32 as int,
                spacing == sp,
                layout_fits(self.font, text@, x as int, sp),
                i <= chars@.len(),
                cur_x == x + advance(self.font, text@, i as int, sp),
                placed@ == placements(self.font, text@, i as int, x as int, row as int, sp),
            decreases chars@.len() - i,
        {
            let c = chars[i];
            proof {
                assert(i32::MIN <= x + advance(self.font, text@, i as int + 1, sp) <= i32::MAX);
            }
            if let Some(entry) = self.font.get_glyph_entry(c as u32) {
                let step = entry.width as i32 + spacing;
                placed.push(PlacedGlyph { entry, x: cur_x, y: row });
                cur_x = cur_x + step;
            }
            i = i + 1;
        }
        StringLayout { glyphs: placed, next_x: cur_x, next_y: y }
    }

    /// Measures `text` at (`x`, `y`): its width (see `measured_width`, with the
    /// spacing as `u32`), the font height, and where the line continues (the
    /// width taken as `i32`, which wraps above `i32::MAX`).
    pub fn measure_string(&self, text: &str, x: i32, y: i32) -> (r: TextMeasure)
        requires
            self.font.wf(),
            measured_width(self.font, text@, text@.len() as int, spacing_of(self.char_spacing) as int)
                <= u32::MAX,
            i32::MIN <= x + (measured_width(
                self.font,
                text@,
                text@.len() as int,
                spacing_of(self.char_spacing) as int,
            ) as u32 as i32) <= i32::MAX,
        ensures
            r.width == measured_width(
                self.font,
                text@,
                text@.len() as int,
                spacing_of(self.char_spacing) as int,
            ),
            r.height == self.font@.header.height,
            r.next_x == x + (r.width as i32),
            r.next_y == y,
    {
        let spacing = match self.char_spacing {
            Some(s) => s,
            None => 2,
        };
        let chars = chars_of(text);
        let count = chars.len();
        let ghost sp = spacing as int;
        let mut width: u32 = 0;
        let mut i: usize = 0;
        while i < count
            invariant
                self.font.wf(),
                chars@ == text@,
                count == chars@.len(),
                sp == spacing_of(self.char_spacing) as int,
                spacing == sp,
                measured_width(self.font, text@, text@.len() as int, sp) <= u32::MAX,
                i <= count,
                width == measured_width(self.font, text@, i as int, sp),
            decreases count - i,
        {
            let c = chars[i];
            proof {
                self.lemma_measured_width_mono(text@, i as int + 1, count as int, sp);
            }
            if let Some(entry) = self.font.get_glyph_entry(c as u32) {
                width = width + entry.width as u32;
                if i < count - 1 {
                    width = width + spacing;
                }
            }
            i = i + 1;
        }
        let height = self.font.header().height as u32;
        TextMeasure { width, height, next_x: x + width as i32, next_y: y }
    }

    /// Measured widths only grow with the prefix.
    proof fn lemma_measured_width_mono(&self, chars: Seq<char>, i: int, j: int, spacing: int)
        requires
            0 <= i <= j,
            spacing >= 0,
        ensures
            measured_width(self.font, chars, i, spacing) <= measured_width(self.font, chars, j, spacing),
        decreases j - i,
    {
        if i < j {
            self.lemma_measured_width_mono(chars, i, j - 1, spacing);
        }
    }

    /// Whether `layout_string` may lay `text` out from `x`: decides
    /// `layout_fits` with this style's spacing.
    pub fn layout_fits_from(&self, text: &str, x: i32) -> (r: bool)
        requires
            self.font.wf(),
        ensures
            r == layout_fits(self.font, text@, x as int, spacing_of(self.char_spacing) as i32 as int),
    {
        let spacing = match self.char_spacing {
            Some(s) => s,
            None => 2,
        } as i32;
        let chars = chars_of(text);
        let count = chars.len();
        let ghost sp = spacing as int;
        let ghost t = text@;
        let mut cur: i64 = x as i64;
        let mut i: usize = 0;
        while i < count
            invariant
                self.font.wf(),
                chars@ == t,
                t == text@,
                count == t.len(),
                sp == spacing_of(self.char_spacing) as i32 as int,
                spacing == sp,
                i <= count,
                cur == x + advance(self.font, t, i as int, sp),
                forall|k: int|
                    0 <= k <= i ==> i32::MIN <= x + #[trigger] advance(self.font, t, k, sp)
                        <= i32::MAX && (k < i ==> (glyph_for(self.font, t[k]) matches Some(e)
                        ==> e.width + sp <= i32::MAX)),
            decreases count - i,
        {
            let c = chars[i];
            if let Some(entry) = self.font.get_glyph_entry(c as u32) {
                let step = entry.width as i64 + spacing as i64;
                if step > i32::MAX as i64 {
                    assert(!layout_fits(self.font, t, x as int, sp)) by {
                        assert(advance(self.font, t, i as int, sp) == cur - x);
                    }
                    return false;
                }
                cur = cur + step;
                if cur < i32::MIN as i64 || cur > i32::MAX as i64 {
                    assert(!layout_fits(self.font, t, x as int, sp)) by {
                        assert(advance(self.font, t, i + 1, sp) == cur - x);
                    }
                    return false;
                }
            }
            i = i + 1;
        }
        true
    }

    /// Whether `measure_string` may measure `text` at `x`: the measured width
    /// fits `u32`, and the position after it (the width taken as `i32`) fits
    /// `i32`.
    pub fn measure_fits_from(&self, text: &str, x: i32) -> (r: bool)
        requires
            self.font.wf(),
        ensures
            r == (measured_width(self.font, text@, text@.len() as int, spacing_of(self.char_spacing) as int)
                <= u32::MAX && i32::MIN <= x + (measured_width(
                self.font,
                text@,
                text@.len() as int,
                spacing_of(self.char_spacing) as int,
            ) as u32 as i32) <= i32::MAX),
    {
        let spacing = match self.char_spacing {
            Some(s) => s,
            None => 2,
        };
        let chars = chars_of(text);
        let count = chars.len();
        let ghost sp = spacing as int;
        let ghost t = text@;
        let mut width: u64 = 0;
        let mut i: usize = 0;
        while i < count
            invariant
                self.font.wf(),
                chars@ == t,
                t == text@,
                count == t.len(),
                sp == spacing_of(self.char_spacing) as int,
                spacing == sp,
                i <= count,
                width == measured_width(self.font, t, i as int, sp),
                width <= u32::MAX,
            decreases count - i,
        {
            let c = chars[i];
            if let Some(entry) = self.font.get_glyph_entry(c as u32) {
                width = width + entry.width as u64;
                if i < count - 1 {
                    width = width + spacing as u64;
                }
            }
            i = i + 1;
            if width > u32::MAX as u64 {
                proof {
                    self.lemma_measured_width_mono(t, i as int, count as int, sp);
                }
                return false;
            }
        }
        let end = x as i64 + (width as u32 as i32) as i64;
        i32::MIN as i64 <= end && end <= i32::MAX as i64
    }

    /// Where the line continues after `width` pixels of whitespace at `x`.
    pub fn whitespace_end(&self, width: u32, x: i32) -> (r: i32)
        requires
            i32::MIN <= x + (width as i32) <= i32::MAX,
        ensures
            r == x + (width as i32),
    {
        x + width as i32
    }

    /// The pixels of a glyph of this font drawn with its top-left corner at
    /// (`x`, `y`): anti-aliased pixels blended in `fg` over `bg`, monochrome
    /// pixels in `fg`.
    pub fn glyph_pixels(&self, entry: &GlyphEntry, x: i32, y: i32, fg: Rgb, bg: Rgb) -> (r: GlyphPixels<'a>)
        requires
            self.font.wf(),
            entry.data_offset + spec_glyph_data_size(
                entry.width as int,
                self.font@.header.height as int,
                self.font@.header.pixel_format,
            ) <= self.font@.bytes.len(),
            x + entry.width <= i32::MAX + 1,
            y + self.font@.header.height <= i32::MAX + 1,
        ensures
            r@.wf(),
            r@.idx == 0,
            r@.data == self.font.block_of(*entry),
            r@.width == entry.width,
            r@.height == self.font@.header.height,
            r@.pos_x == x,
            r@.pos_y == y,
            r@.fg == fg,
            r@.bg == bg,
            r@.fmt == self.font@.header.pixel_format,
    {
        let header = self.font.header();
        let data = self.font.glyph_data(entry);
        GlyphPixels::new(data, entry.width, header.height, x, y, fg, bg, header.pixel_format)
    }
}

/// Blending is a weighted mean: full alpha gives the foreground, zero alpha
/// the background, and any alpha a value between the two.
pub proof fn lemma_blend_bounds(bg: u8, fg: u8, alpha: u8)
    ensures
        alpha == 255 ==> spec_blend(bg, fg, alpha) == fg,
        alpha == 0 ==> spec_blend(bg, fg, alpha) == bg,
        bg <= fg ==> bg <= spec_blend(bg, fg, alpha) <= fg,
        fg <= bg ==> fg <= spec_blend(bg, fg, alpha) <= bg,
{
    let a = alpha as int;
    let b = bg as int;
    let f = fg as int;
    let t = b * (255 - a) + f * a;
    if bg <= fg {
        assert(255 * b <= t <= 255 * f) by (nonlinear_arith)
            requires
                t == b * (255 - a) + f * a,
                0 <= a <= 255,
                b <= f,
        ;
    } else {
        assert(255 * f <= t <= 255 * b) by (nonlinear_arith)
            requires
                t == b * (255 - a) + f * a,
                0 <= a <= 255,
                f <= b,
        ;
    }
    assert(a == 255 ==> t == 255 * f) by (nonlinear_arith)
        requires
            t == b * (255 - a) + f * a,
    ;
    assert(a == 0 ==> t == 255 * b) by (nonlinear_arith)
        requires
            t == b * (255 - a) + f * a,
    ;
}

/// Every glyph a layout places sits on the row the layout was given.
pub proof fn lemma_placements_row<'a>(
    font: &Font<'a>,
    chars: Seq<char>,
    k: int,
    x0: int,
    y: int,
    spacing: int,
)
    requires
        i32::MIN <= y <= i32::MAX,
    ensures
        forall|i: int|
            0 <= i < placements(font, chars, k, x0, y, spacing).len() ==> (#[trigger] placements(
                font,
                chars,
                k,
                x0,
                y,
                spacing,
            )[i]).y == y,
    decreases k,
{
    if k > 0 {
        lemma_placements_row(font, chars, k - 1, x0, y, spacing);
        let prev = placements(font, chars, k - 1, x0, y, spacing);
        let cur = placements(font, chars, k, x0, y, spacing);
        assert forall|i: int| 0 <= i < cur.len() implies (#[trigger] cur[i]).y == y by {
            if i < prev.len() {
                assert(cur[i] == prev[i]);
            }
        }
    }
}

/// Total glyph width of the characters among the first `k` that the font
/// has.
pub open spec fn glyph_width_sum<'a>(font: &Font<'a>, chars: Seq<char>, k: int) -> int
    decreases k,
{
    if k <= 0 {
        0
    } else {
        glyph_width_sum(font, chars, k - 1) + match glyph_for(font, chars[k - 1]) {
            Some(e) => e.width as int,
            None => 0,
        }
    }
}

/// When the font has every character among the first `k`, the layout
/// advance over them is their glyph widths plus one spacing each.
proof fn lemma_advance_known<'a>(font: &Font<'a>, chars: Seq<char>, k: int, spacing: int)
    requires
        0 <= k <= chars.len(),
        forall|i: int| 0 <= i < chars.len() ==> #[trigger] glyph_for(font, chars[i]) is Some,
    ensures
        advance(font, chars, k, spacing) == glyph_width_sum(font, chars, k) + spacing * k,
    decreases k,
{
    if k > 0 {
        lemma_advance_known(font, chars, k - 1, spacing);
        assert(glyph_for(font, chars[k - 1]) is Some);
        assert(spacing * k == spacing * (k - 1) + spacing) by (nonlinear_arith);
    } else {
        assert(spacing * k == 0) by (nonlinear_arith)
            requires
                k == 0,
        ;
    }
}

/// For a non-empty text whose every character the font has, the measured
/// width is the sum of the glyph widths plus one spacing between each two
/// characters, and the layout (what drawing advances by) ends one spacing
/// further: the glyph widths plus one spacing per character.
pub proof fn lemma_measure_and_draw_widths<'a>(font: &Font<'a>, chars: Seq<char>, spacing: int)
    requires
        chars.len() > 0,
        forall|i: int| 0 <= i < chars.len() ==> #[trigger] glyph_for(font, chars[i]) is Some,
    ensures
        measured_width(font, chars, chars.len() as int, spacing) == glyph_width_sum(
            font,
            chars,
            chars.len() as int,
        ) + spacing * (chars.len() - 1),
        advance(font, chars, chars.len() as int, spacing) == glyph_width_sum(
            font,
            chars,
            chars.len() as int,
        ) + spacing * chars.len(),
{
    let n = chars.len() as int;
    lemma_advance_known(font, chars, n, spacing);
    lemma_advance_known(font, chars, n - 1, spacing);
    lemma_measure_prefix(font, chars, n - 1, spacing);
    assert(glyph_for(font, chars[n - 1]) is Some);
    assert(spacing * n == spacing * (n - 1) + spacing) by (nonlinear_arith);
}

/// Before the last character, the measured width and the advance agree.
proof fn lemma_measure_prefix<'a>(font: &Font<'a>, chars: Seq<char>, k: int, spacing: int)
    requires
        0 <= k < chars.len(),
    ensures
        measured_width(font, chars, k, spacing) == advance(font, chars, k, spacing),
    decreases k,
{
    if k > 0 {
        lemma_measure_prefix(font, chars, k - 1, spacing);
    }
}

/// The width a string measures equals the advance its layout makes, less one
/// spacing when the text ends in a character the font has (no spacing is
/// counted after the last character).
pub proof fn lemma_measure_matches_layout<'a>(font: &Font<'a>, chars: Seq<char>, spacing: int)
    ensures
        chars.len() == 0 ==> measured_width(font, chars, 0, spacing) == 0 && advance(
            font,
            chars,
            0,
            spacing,
        ) == 0,
        chars.len() > 0 && glyph_for(font, chars.last()) is Some ==> measured_width(
            font,
            chars,
            chars.len() as int,
            spacing,
        ) + spacing == advance(font, chars, chars.len() as int, spacing),
        chars.len() > 0 && glyph_for(font, chars.last()) is None ==> measured_width(
            font,
            chars,
            chars.len() as int,
            spacing,
        ) == advance(font, chars, chars.len() as int, spacing),
{
    if chars.len() > 0 {
        lemma_measure_prefix(font, chars, chars.len() - 1, spacing);
    }
}

} // verus!
