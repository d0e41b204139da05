//! An immediate-mode interface drawn straight into an ARGB framebuffer
//! (0x00RRGGBB), with the 8×8 bitmap font of `font8x8`: rectangles, veils,
//! outlines, glyphs, text and buttons.

use vstd::prelude::*;
use vstd::string::*;

verus! {

/// Interface palette (dark, readable, in tune with the map).
pub const BG: u32 = 0x0E1116;
pub const PANEL: u32 = 0x121A24;
pub const PANEL_HI: u32 = 0x1B2735;
pub const ACCENT: u32 = 0x3A6EA5;
pub const ACCENT_HI: u32 = 0x5C92C7;
pub const BORDER: u32 = 0x36465A;
pub const TEXT: u32 = 0xEAF0F4;
pub const TEXT_DIM: u32 = 0x90A1B2;
pub const GOOD: u32 = 0x57A36C;
pub const WARN: u32 = 0xC2613F;

/// The eight rows of the glyph of code `idx` in the font's basic table (bit
/// `k` of a row lights column `k`, from the left).
pub uninterp spec fn legacy_glyph(idx: int) -> Seq<u8>;

/// An empty row lights no column.
proof fn lemma_blank_row(b: u8)
    ensures
        (0u8 >> b) & 1u8 == 0u8,
{
    assert((0u8 >> b) & 1u8 == 0u8) by (bit_vector);
}

/// Eight empty rows.
pub open spec fn blank_glyph() -> Seq<u8> {
    seq![0u8, 0u8, 0u8, 0u8, 0u8, 0u8, 0u8, 0u8]
}

/// Rows of the glyph of ASCII code `idx`, from `font8x8::legacy::BASIC_LEGACY`
/// (a constant table of 128 glyphs of eight rows): the result is named by
/// [`legacy_glyph`]; the space (code 32) is blank in that table.
#[verifier::external_body]
fn glyph_rows(idx: usize) -> (rows: [u8; 8])
    requires
        idx < 128,
    ensures
        rows@ == legacy_glyph(idx as int),
        idx == 32 ==> rows@ == blank_glyph(),
{
    font8x8::legacy::BASIC_LEGACY[idx]
}

/// A drawing surface: `w` × `h` pixels, row-major.
pub struct Canvas {
    pub buf: Vec<u32>,
    pub w: i32,
    pub h: i32,
}

/// Is pixel (px, py) inside the rectangle at (x, y) of size w × h?
pub open spec fn in_rect(px: int, py: int, x: int, y: int, w: int, h: int) -> bool {
    x <= px < x + w && y <= py < y + h
}

/// The buffer once the rectangle is painted `color` (pixels off the surface
/// are clipped).
pub open spec fn fill_spec(buf: Seq<u32>, cw: int, x: int, y: int, w: int, h: int, color: u32) -> Seq<u32> {
    Seq::new(buf.len(), |i: int| if in_rect(i % cw, i / cw, x, y, w, h) { color } else { buf[i] })
}

/// `bg` veiled by `color` at opacity `a` (0..255), channel by channel.
pub open spec fn blend_spec(bg: u32, color: u32, a: u32) -> u32 {
    let r = (((color >> 16u32) & 255) * a + ((bg >> 16u32) & 255) * (255 - a)) / 255;
    let g = (((color >> 8u32) & 255) * a + ((bg >> 8u32) & 255) * (255 - a)) / 255;
    let b = ((color & 255) * a + (bg & 255) * (255 - a)) / 255;
    ((r as u32) << 16u32) | ((g as u32) << 8u32) | (b as u32)
}

/// The buffer once the rectangle is veiled by `color` at opacity `alpha`
/// (capped at 255).
pub open spec fn blend_rect_spec(buf: Seq<u32>, cw: int, x: int, y: int, w: int, h: int, color: u32, alpha: u32) -> Seq<u32> {
    let a: u32 = if alpha <= 255 { alpha } else { 255 };
    Seq::new(buf.len(), |i: int| if in_rect(i % cw, i / cw, x, y, w, h) { blend_spec(buf[i], color, a) } else { buf[i] })
}

/// A pixel painted `color`, opaque or veiled at opacity `veil` (capped at 255).
pub open spec fn paint_px(old: u32, color: u32, veil: Option<u32>) -> u32 {
    match veil {
        None => color,
        Some(a) => blend_spec(old, color, if a <= 255 { a } else { 255 }),
    }
}

/// The buffer once the rectangle is painted, opaque or veiled.
pub open spec fn paint_spec(buf: Seq<u32>, cw: int, x: int, y: int, w: int, h: int, color: u32, veil: Option<u32>) -> Seq<u32> {
    Seq::new(buf.len(), |i: int| if in_rect(i % cw, i / cw, x, y, w, h) { paint_px(buf[i], color, veil) } else { buf[i] })
}

/// `bg` veiled by `color` at opacity `a`.
pub fn blend(bg: u32, color: u32, a: u32) -> (r: u32)
    requires
        a <= 255,
    ensures
        r == blend_spec(bg, color, a),
{
    let (cr, cg, cb) = ((color >> 16) & 255, (color >> 8) & 255, color & 255);
    let (br, bgn, bb) = ((bg >> 16) & 255, (bg >> 8) & 255, bg & 255);
    assert(cr <= 255 && cg <= 255 && cb <= 255 && br <= 255 && bgn <= 255 && bb <= 255) by (bit_vector)
        requires cr == (color >> 16) & 255, cg == (color >> 8) & 255, cb == color & 255,
            br == (bg >> 16) & 255, bgn == (bg >> 8) & 255, bb == bg & 255;
    assert(cr * a + br * (255 - a) <= 255 * 255 * 2) by (nonlinear_arith)
        requires cr <= 255, br <= 255, a <= 255;
    assert(cg * a + bgn * (255 - a) <= 255 * 255 * 2) by (nonlinear_arith)
        requires cg <= 255, bgn <= 255, a <= 255;
    assert(cb * a + bb * (255 - a) <= 255 * 255 * 2) by (nonlinear_arith)
        requires cb <= 255, bb <= 255, a <= 255;
    let r = (cr * a + br * (255 - a)) / 255;
    let g = (cg * a + bgn * (255 - a)) / 255;
    let b = (cb * a + bb * (255 - a)) / 255;
    (r << 16) | (g << 8) | b
}

/// The buffer once the one-pixel outline of the rectangle is painted.
pub open spec fn outline_spec(buf: Seq<u32>, cw: int, x: int, y: int, w: int, h: int, color: u32) -> Seq<u32> {
    let b1 = fill_spec(buf, cw, x, y, w, 1, color);
    let b2 = fill_spec(b1, cw, x, y + h - 1, w, 1, color);
    let b3 = fill_spec(b2, cw, x, y, 1, h, color);
    fill_spec(b3, cw, x + w - 1, y, 1, h, color)
}

/// Is pixel (px, py) on the one-pixel border of the rectangle at (x, y) of
/// size w × h?
pub open spec fn on_border(px: int, py: int, x: int, y: int, w: int, h: int) -> bool {
    in_rect(px, py, x, y, w, h) && (px == x || px == x + w - 1 || py == y || py == y + h - 1)
}

/// Outlining a rectangle paints exactly its border pixels `color` and leaves
/// every other pixel, inside or outside, as it was.
pub proof fn lemma_outline_border(buf: Seq<u32>, cw: int, x: int, y: int, w: int, h: int, color: u32, i: int)
    requires
        cw > 0,
        w >= 1,
        h >= 1,
        0 <= i < buf.len(),
    ensures
        outline_spec(buf, cw, x, y, w, h, color)[i]
            == (if on_border(i % cw, i / cw, x, y, w, h) { color } else { buf[i] }),
{
}

/// Folds accents (and a few symbols) to the ASCII the font covers.
pub open spec fn fold_spec(c: char) -> char {
    if c == 'é' || c == 'è' || c == 'ê' || c == 'ë' {
        'e'
    } else if c == 'à' || c == 'â' || c == 'ä' {
        'a'
    } else if c == 'î' || c == 'ï' {
        'i'
    } else if c == 'ô' || c == 'ö' {
        'o'
    } else if c == 'û' || c == 'ü' || c == 'ù' {
        'u'
    } else if c == 'ç' {
        'c'
    } else if c == 'É' || c == 'È' || c == 'Ê' || c == 'Ë' {
        'E'
    } else if c == 'À' || c == 'Â' {
        'A'
    } else if c == 'Ô' {
        'O'
    } else if c == 'Î' {
        'I'
    } else if c == 'Ç' {
        'C'
    } else if c == '—' || c == '–' {
        '-'
    } else if c == '→' {
        '>'
    } else if c == '×' {
        'x'
    } else if c == '’' {
        '\''
    } else if c == '°' {
        'o'
    } else {
        c
    }
}

/// Folds accents (and a few symbols) to the ASCII the font covers.
pub fn ascii_fold(c: char) -> (r: char)
    ensures
        r == fold_spec(c),
{
    match c {
        'é' | 'è' | 'ê' | 'ë' => 'e',
        'à' | 'â' | 'ä' => 'a',
        'î' | 'ï' => 'i',
        'ô' | 'ö' => 'o',
        'û' | 'ü' | 'ù' => 'u',
        'ç' => 'c',
        'É' | 'È' | 'Ê' | 'Ë' => 'E',
        'À' | 'Â' => 'A',
        'Ô' => 'O',
        'Î' => 'I',
        'Ç' => 'C',
        '—' | '–' => '-',
        '→' => '>',
        '×' => 'x',
        '’' => '\'',
        '°' => 'o',
        _ => c,
    }
}

/// Is cell (row, col) of the glyph of `c` lit?
pub open spec fn glyph_lit(c: char, row: int, col: int) -> bool {
    let idx = fold_spec(c) as int;
    idx < 128 && (legacy_glyph(idx)[row] >> (col as u8)) & 1u8 == 1u8
}

/// Does the glyph of `c` drawn at (x, y) at scale `scale` cover pixel (px, py)?
pub open spec fn glyph_covers(c: char, x: int, y: int, scale: int, px: int, py: int) -> bool {
    exists|row: int, col: int| 0 <= row < 8 && 0 <= col < 8 && #[trigger] glyph_lit(c, row, col)
        && in_rect(px, py, x + col * scale, y + row * scale, scale, scale)
}

/// Glyph cells strictly before (row, col) in drawing order.
spec fn glyph_covers_before(c: char, x: int, y: int, scale: int, px: int, py: int, row: int, col: int) -> bool {
    exists|r: int, k: int| 0 <= r < 8 && 0 <= k < 8 && (r < row || (r == row && k < col)) && #[trigger] glyph_lit(c, r, k)
        && in_rect(px, py, x + k * scale, y + r * scale, scale, scale)
}

/// The buffer once the glyph of `c` is drawn at (x, y).
pub open spec fn glyph_spec(buf: Seq<u32>, cw: int, x: int, y: int, c: char, scale: int, color: u32) -> Seq<u32> {
    Seq::new(buf.len(), |i: int| if glyph_covers(c, x, y, scale, i % cw, i / cw) { color } else { buf[i] })
}

/// Does the text `s` drawn from (x, y) cover pixel (px, py) with one of its
/// first `n` characters (each one 8 × scale pixels after the previous one)?
pub open spec fn text_covers(s: Seq<char>, n: int, x: int, y: int, scale: int, px: int, py: int) -> bool {
    exists|k: int| 0 <= k < n && #[trigger] glyph_covers(s[k], x + 8 * scale * k, y, scale, px, py)
}

/// The buffer once the text `s` is drawn from (x, y).
pub open spec fn text_spec(buf: Seq<u32>, cw: int, x: int, y: int, s: Seq<char>, scale: int, color: u32) -> Seq<u32> {
    Seq::new(buf.len(), |i: int| if text_covers(s, s.len() as int, x, y, scale, i % cw, i / cw) { color } else { buf[i] })
}

/// Drawing a text changes only pixels inside its box (from (x, y), as wide
/// as [`text_w`] says and 8 × `scale` high), and each to `color`.
pub proof fn lemma_text_box(buf: Seq<u32>, cw: int, x: int, y: int, s: Seq<char>, scale: int, color: u32, i: int)
    requires
        cw > 0,
        scale >= 1,
        0 <= i < buf.len(),
        text_spec(buf, cw, x, y, s, scale, color)[i] != buf[i],
    ensures
        text_spec(buf, cw, x, y, s, scale, color)[i] == color,
        x <= i % cw < x + 8 * scale * s.len(),
        y <= i / cw < y + 8 * scale,
{
    let px = i % cw;
    let py = i / cw;
    assert(text_covers(s, s.len() as int, x, y, scale, px, py));
    let k = choose|k: int| 0 <= k < s.len() && #[trigger] glyph_covers(s[k], x + 8 * scale * k, y, scale, px, py);
    let (r, c) = choose|r: int, c: int| 0 <= r < 8 && 0 <= c < 8 && #[trigger] glyph_lit(s[k], r, c)
        && in_rect(px, py, x + 8 * scale * k + c * scale, y + r * scale, scale, scale);
    let n = s.len() as int;
    assert(x <= px < x + 8 * scale * n) by (nonlinear_arith)
        requires
            x + 8 * scale * k + c * scale <= px < x + 8 * scale * k + c * scale + scale,
            0 <= k < n,
            0 <= c < 8,
            scale >= 1;
    assert(y <= py < y + 8 * scale) by (nonlinear_arith)
        requires
            y + r * scale <= py < y + r * scale + scale,
            0 <= r < 8,
            scale >= 1;
}

/// Quotient rounded toward zero (the division of Rust's signed integers).
pub open spec fn quot(v: int, d: int) -> int {
    if v >= 0 { v / d } else { -((-v) / d) }
}

/// Width in pixels of the text `s` at scale `scale`.
pub fn text_w(s: &str, scale: i32) -> (w: i32)
    requires
        s@.len() <= i32::MAX,
        i32::MIN <= 8 * s@.len() <= i32::MAX,
        i32::MIN <= 8 * scale * s@.len() <= i32::MAX,
    ensures
        w == 8 * scale * s@.len(),
{
    let n = s.unicode_len() as i32;
    assert(n * 8 * scale == 8 * scale * n) by (nonlinear_arith);
    n * 8 * scale
}

/// Pixel `yy * cw + xx` lies at column `xx` and row `yy`.
proof fn lemma_pixel(xx: int, yy: int, cw: int)
    requires
        0 <= xx < cw,
        0 <= yy,
    ensures
        (yy * cw + xx) % cw == xx,
        (yy * cw + xx) / cw == yy,
{
    vstd::arithmetic::div_mod::lemma_fundamental_div_mod_converse(yy * cw + xx, cw, yy, xx);
}

/// A pixel of the surface lies inside it.
proof fn lemma_on_surface(i: int, cw: int, ch: int)
    requires
        cw > 0,
        0 <= i < cw * ch,
    ensures
        0 <= i % cw < cw,
        0 <= i / cw < ch,
{
    vstd::arithmetic::div_mod::lemma_fundamental_div_mod(i, cw);
    assert(0 <= i % cw < cw) by (nonlinear_arith)
        requires cw > 0;
    assert(0 <= i / cw < ch) by (nonlinear_arith)
        requires cw > 0, 0 <= i < cw * ch, i == cw * (i / cw) + i % cw, 0 <= i % cw < cw;
}

impl Canvas {
    /// The buffer holds one pixel per cell of the surface.
    pub open spec fn wf(&self) -> bool {
        &&& self.w >= 0
        &&& self.h >= 0
        &&& self.buf@.len() == self.w as int * self.h as int
    }

    /// A surface of `w` × `h` pixels over `buf`.
    pub fn new(buf: Vec<u32>, w: usize, h: usize) -> (c: Self)
        requires
            buf@.len() == w as int * h as int,
            w <= i32::MAX,
            h <= i32::MAX,
        ensures
            c.wf(),
            c.buf@ == buf@,
            c.w == w,
            c.h == h,
    {
        Self { buf, w: w as i32, h: h as i32 }
    }

    /// Paints a rectangle given in wide coordinates (clipped to the surface):
    /// opaque, or veiled at opacity `veil`.
    fn paint_wide(&mut self, x: i64, y: i64, w: i64, h: i64, color: u32, veil: Option<u32>)
        requires
            old(self).wf(),
            -0x2000_0000_0000_0000 <= x <= 0x2000_0000_0000_0000,
            -0x2000_0000_0000_0000 <= y <= 0x2000_0000_0000_0000,
            -0x2000_0000_0000_0000 <= w <= 0x2000_0000_0000_0000,
            -0x2000_0000_0000_0000 <= h <= 0x2000_0000_0000_0000,
        ensures
            final(self).wf(),
            final(self).w == old(self).w,
            final(self).h == old(self).h,
            final(self).buf@ == paint_spec(old(self).buf@, old(self).w as int, x as int, y as int, w as int, h as int, color, veil),
    {
        let cw = self.w as i64;
        let ch = self.h as i64;
        let y0 = if y > 0 { y } else { 0 };
        let y1 = if y + h < ch { y + h } else { ch };
        let x0 = if x > 0 { x } else { 0 };
        let x1 = if x + w < cw { x + w } else { cw };
        let ghost orig = self.buf@;
        let ghost target = paint_spec(orig, cw as int, x as int, y as int, w as int, h as int, color, veil);
        let n = self.buf.len();
        let mut yy = y0;
        while yy < y1
            invariant
                self.wf(),
                self.w == old(self).w,
                self.h == old(self).h,
                cw == self.w,
                ch == self.h,
                0 <= cw <= 0x7fff_ffff,
                0 <= ch <= 0x7fff_ffff,
                orig == old(self).buf@,
                0 <= y0 <= yy,
                yy <= y1 || yy == y0,
                y1 <= ch,
                0 <= x0,
                x1 <= cw,
                self.buf@.len() == orig.len(),
                n == orig.len(),
                forall|i: int| 0 <= i < orig.len() ==> #[trigger] self.buf@[i]
                    == if in_rect(i % (cw as int), i / (cw as int), x0 as int, y0 as int, x1 - x0, yy - y0) { paint_px(orig[i], color, veil) } else { orig[i] },
            decreases y1 - yy,
        {
            let mut xx = x0;
            while xx < x1
                invariant
                    self.wf(),
                    self.w == old(self).w,
                    self.h == old(self).h,
                    cw == self.w,
                    ch == self.h,
                    0 <= cw <= 0x7fff_ffff,
                    0 <= ch <= 0x7fff_ffff,
                    orig == old(self).buf@,
                    0 <= y0 <= yy < y1,
                    y1 <= ch,
                    0 <= x0 <= xx,
                    xx <= x1 || xx == x0,
                    x1 <= cw,
                    self.buf@.len() == orig.len(),
                    n == orig.len(),
                    forall|i: int| 0 <= i < orig.len() ==> #[trigger] self.buf@[i]
                        == if in_rect(i % (cw as int), i / (cw as int), x0 as int, y0 as int, x1 - x0, yy - y0)
                            || in_rect(i % (cw as int), i / (cw as int), x0 as int, yy as int, xx - x0, 1) { paint_px(orig[i], color, veil) } else { orig[i] },
                decreases x1 - xx,
            {
                proof {
                    lemma_pixel(xx as int, yy as int, cw as int);
                    assert((yy as int) * (cw as int) + (xx as int) < (cw as int) * (ch as int)) by (nonlinear_arith)
                        requires 0 <= xx < cw, 0 <= yy < ch;
                    assert((cw as int) * (ch as int) <= 0x7fff_ffff * 0x7fff_ffff) by (nonlinear_arith)
                        requires 0 <= cw <= 0x7fff_ffff, 0 <= ch <= 0x7fff_ffff;
                }
                let k = (yy * cw + xx) as usize;
                assert(k as int == (yy as int) * (cw as int) + (xx as int));
                proof {
                    lemma_pixel(xx as int, yy as int, cw as int);
                }
                let px = match veil {
                    None => color,
                    Some(a) => blend(self.buf[k], color, if a <= 255 { a } else { 255 }),
                };
                self.buf.set(k, px);
                proof {
                    assert forall|i: int| 0 <= i < orig.len() implies #[trigger] self.buf@[i]
                        == if in_rect(i % (cw as int), i / (cw as int), x0 as int, y0 as int, x1 - x0, yy - y0)
                            || in_rect(i % (cw as int), i / (cw as int), x0 as int, yy as int, xx + 1 - x0, 1) { paint_px(orig[i], color, veil) } else { orig[i] } by {
                        if i != k {
                            vstd::arithmetic::div_mod::lemma_fundamental_div_mod(i, cw as int);
                            assert((yy as int) * (cw as int) == (cw as int) * (yy as int)) by (nonlinear_arith);
                            if i % (cw as int) == xx && i / (cw as int) == yy {
                                assert(i == (cw as int) * (yy as int) + (xx as int));
                            }
                        } else {
                            assert(i % (cw as int) == xx && i / (cw as int) == yy);
                        }
                    }
                }
                xx = xx + 1;
            }
            yy = yy + 1;
        }
        proof {
            assert forall|i: int| 0 <= i < orig.len() implies #[trigger] self.buf@[i] == target[i] by {
                lemma_on_surface(i, cw as int, ch as int);
            }
            assert(self.buf@ =~= target);
        }
    }

    /// Paints an opaque rectangle (clipped to the surface).
    pub fn fill_rect(&mut self, x: i32, y: i32, w: i32, h: i32, color: u32)
        requires
            old(self).wf(),
        ensures
            final(self).wf(),
            final(self).w == old(self).w,
            final(self).h == old(self).h,
            final(self).buf@ == fill_spec(old(self).buf@, old(self).w as int, x as int, y as int, w as int, h as int, color),
    {
        self.paint_wide(x as i64, y as i64, w as i64, h as i64, color, None);
        assert(self.buf@ =~= fill_spec(old(self).buf@, old(self).w as int, x as int, y as int, w as int, h as int, color));
    }

    /// Veils a rectangle: `color` mixed over the background at opacity
    /// `alpha` (0..255, capped).
    pub fn blend_rect(&mut self, x: i32, y: i32, w: i32, h: i32, color: u32, alpha: u32)
        requires
            old(self).wf(),
        ensures
            final(self).wf(),
            final(self).w == old(self).w,
            final(self).h == old(self).h,
            final(self).buf@ == blend_rect_spec(old(self).buf@, old(self).w as int, x as int, y as int, w as int, h as int, color, alpha),
    {
        self.paint_wide(x as i64, y as i64, w as i64, h as i64, color, Some(alpha));
        assert(self.buf@ =~= blend_rect_spec(old(self).buf@, old(self).w as int, x as int, y as int, w as int, h as int, color, alpha));
    }

    /// Outlines a rectangle (one pixel wide).
    pub fn rect_outline(&mut self, x: i32, y: i32, w: i32, h: i32, color: u32)
        requires
            old(self).wf(),
        ensures
            final(self).wf(),
            final(self).w == old(self).w,
            final(self).h == old(self).h,
            final(self).buf@ == outline_spec(old(self).buf@, old(self).w as int, x as int, y as int, w as int, h as int, color),
    {
        let (xw, yh, ww, hh) = (x as i64, y as i64, w as i64, h as i64);
        self.paint_wide(xw, yh, ww, 1, color, None);
        self.paint_wide(xw, yh + hh - 1, ww, 1, color, None);
        self.paint_wide(xw, yh, 1, hh, color, None);
        self.paint_wide(xw + ww - 1, yh, 1, hh, color, None);
        proof {
            let cw = old(self).w as int;
            let b1 = fill_spec(old(self).buf@, cw, x as int, y as int, w as int, 1, color);
            let b2 = fill_spec(b1, cw, x as int, y + h - 1, w as int, 1, color);
            let b3 = fill_spec(b2, cw, x as int, y as int, 1, h as int, color);
            assert(paint_spec(old(self).buf@, cw, x as int, y as int, w as int, 1, color, None) =~= b1);
            assert(paint_spec(b1, cw, x as int, y + h - 1, w as int, 1, color, None) =~= b2);
            assert(paint_spec(b2, cw, x as int, y as int, 1, h as int, color, None) =~= b3);
            assert(paint_spec(b3, cw, x + w - 1, y as int, 1, h as int, color, None)
                =~= outline_spec(old(self).buf@, cw, x as int, y as int, w as int, h as int, color));
        }
    }

    /// Draws the glyph of `c` at (x, y), scaled (wide coordinates).
    fn glyph_wide(&mut self, x: i64, y: i64, c: char, scale: i64, color: u32)
        requires
            old(self).wf(),
            -0x100_0000_0000 <= x <= 0x100_0000_0000,
            -0x100_0000_0000 <= y <= 0x100_0000_0000,
            -0x1_0000_0000 <= scale <= 0x1_0000_0000,
        ensures
            final(self).wf(),
            final(self).w == old(self).w,
            final(self).h == old(self).h,
            final(self).buf@ == glyph_spec(old(self).buf@, old(self).w as int, x as int, y as int, c, scale as int, color),
            fold_spec(c) as int == 32 ==> legacy_glyph(32) == blank_glyph(),
    {
        let ghost orig = self.buf@;
        let ghost cw = self.w as int;
        let f = ascii_fold(c);
        let idx = f as u32;
        if idx >= 128 {
            proof {
                assert forall|i: int| 0 <= i < orig.len() implies
                    !#[trigger] glyph_covers(c, x as int, y as int, scale as int, i % cw, i / cw) by {
                    if glyph_covers(c, x as int, y as int, scale as int, i % cw, i / cw) {
                        let (r, k) = choose|r: int, k: int| 0 <= r < 8 && 0 <= k < 8 && #[trigger] glyph_lit(c, r, k)
                            && in_rect(i % cw, i / cw, x + k * scale, y + r * scale, scale as int, scale as int);
                        assert(glyph_lit(c, r, k));
                    }
                }
                assert(self.buf@ =~= glyph_spec(orig, cw, x as int, y as int, c, scale as int, color));
            }
            return;
        }
        let g = glyph_rows(idx as usize);
        let mut row: u8 = 0;
        while row < 8
            invariant
                self.wf(),
                self.w == old(self).w,
                self.h == old(self).h,
                cw == self.w,
                orig == old(self).buf@,
                idx == fold_spec(c) as int,
                idx < 128,
                g@ == legacy_glyph(idx as int),
                -0x100_0000_0000 <= x <= 0x100_0000_0000,
                -0x100_0000_0000 <= y <= 0x100_0000_0000,
                -0x1_0000_0000 <= scale <= 0x1_0000_0000,
                0 <= row <= 8,
                self.buf@ == Seq::new(orig.len(), |i: int|
                    if glyph_covers_before(c, x as int, y as int, scale as int, i % cw, i / cw, row as int, 0) { color } else { orig[i] }),
            decreases 8 - row,
        {
            let bits = g[row as usize];
            let mut col: u8 = 0;
            while col < 8
                invariant
                    self.wf(),
                    self.w == old(self).w,
                    self.h == old(self).h,
                    cw == self.w,
                    orig == old(self).buf@,
                    idx == fold_spec(c) as int,
                    idx < 128,
                    g@ == legacy_glyph(idx as int),
                    bits == g@[row as int],
                    -0x100_0000_0000 <= x <= 0x100_0000_0000,
                    -0x100_0000_0000 <= y <= 0x100_0000_0000,
                    -0x1_0000_0000 <= scale <= 0x1_0000_0000,
                    0 <= row < 8,
                    0 <= col <= 8,
                    self.buf@ == Seq::new(orig.len(), |i: int|
                        if glyph_covers_before(c, x as int, y as int, scale as int, i % cw, i / cw, row as int, col as int) { color } else { orig[i] }),
                decreases 8 - col,
            {
                let ghost before = self.buf@;
                let lit = (bits >> col) & 1 == 1;
                assert(lit == glyph_lit(c, row as int, col as int));
                if lit {
                    assert(-0x8_0000_0000 <= col * scale <= 0x8_0000_0000) by (nonlinear_arith)
                        requires 0 <= col < 8, -0x1_0000_0000 <= scale <= 0x1_0000_0000;
                    assert(-0x8_0000_0000 <= row * scale <= 0x8_0000_0000) by (nonlinear_arith)
                        requires 0 <= row < 8, -0x1_0000_0000 <= scale <= 0x1_0000_0000;
                    self.paint_wide(x + col as i64 * scale, y + row as i64 * scale, scale, scale, color, None);
                }
                proof {
                    let px = x + col * scale;
                    let py = y + row * scale;
                    assert forall|i: int| 0 <= i < orig.len() implies #[trigger] self.buf@[i] ==
                        if glyph_covers_before(c, x as int, y as int, scale as int, i % cw, i / cw, row as int, col + 1) { color } else { orig[i] } by {
                        let cx = i % cw;
                        let cy = i / cw;
                        let now = glyph_covers_before(c, x as int, y as int, scale as int, cx, cy, row as int, col + 1);
                        let was = glyph_covers_before(c, x as int, y as int, scale as int, cx, cy, row as int, col as int);
                        let here = glyph_lit(c, row as int, col as int) && in_rect(cx, cy, px, py, scale as int, scale as int);
                        if now {
                            let (r, k) = choose|r: int, k: int| 0 <= r < 8 && 0 <= k < 8 && (r < row || (r == row && k < col + 1))
                                && #[trigger] glyph_lit(c, r, k) && in_rect(cx, cy, x + k * scale, y + r * scale, scale as int, scale as int);
                            if r < row || k < col {
                                assert(was);
                            } else {
                                assert(here);
                            }
                        }
                        if was {
                            let (r, k) = choose|r: int, k: int| 0 <= r < 8 && 0 <= k < 8 && (r < row || (r == row && k < col))
                                && #[trigger] glyph_lit(c, r, k) && in_rect(cx, cy, x + k * scale, y + r * scale, scale as int, scale as int);
                            assert(glyph_lit(c, r, k));
                            assert(now);
                        }
                        if here {
                            assert(glyph_lit(c, row as int, col as int));
                            assert(now);
                        }
                    }
                    assert(self.buf@ =~= Seq::new(orig.len(), |i: int|
                        if glyph_covers_before(c, x as int, y as int, scale as int, i % cw, i / cw, row as int, col + 1) { color } else { orig[i] }));
                }
                col = col + 1;
            }
            proof {
                assert forall|i: int| 0 <= i < orig.len() implies
                    #[trigger] glyph_covers_before(c, x as int, y as int, scale as int, i % cw, i / cw, row as int, 8)
                    == glyph_covers_before(c, x as int, y as int, scale as int, i % cw, i / cw, row + 1, 0) by {
                    let cx = i % cw;
                    let cy = i / cw;
                    if glyph_covers_before(c, x as int, y as int, scale as int, cx, cy, row as int, 8) {
                        let (r, k) = choose|r: int, k: int| 0 <= r < 8 && 0 <= k < 8 && (r < row || (r == row && k < 8))
                            && #[trigger] glyph_lit(c, r, k) && in_rect(cx, cy, x + k * scale, y + r * scale, scale as int, scale as int);
                        assert(glyph_lit(c, r, k));
                    }
                    if glyph_covers_before(c, x as int, y as int, scale as int, cx, cy, row + 1, 0) {
                        let (r, k) = choose|r: int, k: int| 0 <= r < 8 && 0 <= k < 8 && (r < row + 1 || (r == row + 1 && k < 0))
                            && #[trigger] glyph_lit(c, r, k) && in_rect(cx, cy, x + k * scale, y + r * scale, scale as int, scale as int);
                        assert(glyph_lit(c, r, k));
                    }
                }
                assert(self.buf@ =~= Seq::new(orig.len(), |i: int|
                    if glyph_covers_before(c, x as int, y as int, scale as int, i % cw, i / cw, row + 1, 0) { color } else { orig[i] }));
            }
            row = row + 1;
        }
        proof {
            assert forall|i: int| 0 <= i < orig.len() implies
                #[trigger] glyph_covers_before(c, x as int, y as int, scale as int, i % cw, i / cw, 8, 0)
                == glyph_covers(c, x as int, y as int, scale as int, i % cw, i / cw) by {
                let cx = i % cw;
                let cy = i / cw;
                if glyph_covers(c, x as int, y as int, scale as int, cx, cy) {
                    let (r, k) = choose|r: int, k: int| 0 <= r < 8 && 0 <= k < 8 && #[trigger] glyph_lit(c, r, k)
                        && in_rect(cx, cy, x + k * scale, y + r * scale, scale as int, scale as int);
                    assert(glyph_lit(c, r, k));
                }
                if glyph_covers_before(c, x as int, y as int, scale as int, cx, cy, 8, 0) {
                    let (r, k) = choose|r: int, k: int| 0 <= r < 8 && 0 <= k < 8 && (r < 8 || (r == 8 && k < 0))
                        && #[trigger] glyph_lit(c, r, k) && in_rect(cx, cy, x + k * scale, y + r * scale, scale as int, scale as int);
                    assert(glyph_lit(c, r, k));
                }
            }
            assert(self.buf@ =~= glyph_spec(orig, cw, x as int, y as int, c, scale as int, color));
        }
    }

    /// Draws one character (8×8, ASCII after folding the accents) scaled by
    /// `scale`; a character the font lacks draws nothing.
    pub fn glyph(&mut self, x: i32, y: i32, c: char, scale: i32, color: u32)
        requires
            old(self).wf(),
        ensures
            final(self).wf(),
            final(self).w == old(self).w,
            final(self).h == old(self).h,
            final(self).buf@ == glyph_spec(old(self).buf@, old(self).w as int, x as int, y as int, c, scale as int, color),
            fold_spec(c) as int == 32 ==> legacy_glyph(32) == blank_glyph(),
    {
        self.glyph_wide(x as i64, y as i64, c, scale as i64, color);
    }

    /// Draws the text `s` from (x, y), one character every 8 × `scale` pixels.
    pub fn text(&mut self, x: i32, y: i32, s: &str, scale: i32, color: u32)
        requires
            old(self).wf(),
            i32::MIN <= x + 8 * scale * s@.len() <= i32::MAX,
            s@.len() > 0 ==> i32::MIN <= 8 * scale <= i32::MAX,
        ensures
            final(self).wf(),
            final(self).w == old(self).w,
            final(self).h == old(self).h,
            final(self).buf@ == text_spec(old(self).buf@, old(self).w as int, x as int, y as int, s@, scale as int, color),
            (forall|j: int| 0 <= j < s@.len() ==> #[trigger] s@[j] == ' ') ==> final(self).buf@ == old(self).buf@,
    {
        let ghost orig = self.buf@;
        let ghost cw = self.w as int;
        let n = s.unicode_len();
        let mut cx: i64 = x as i64;
        let mut k: usize = 0;
        proof {
            assert(self.buf@ =~= Seq::new(orig.len(), |i: int|
                if text_covers(s@, 0, x as int, y as int, scale as int, i % cw, i / cw) { color } else { orig[i] }));
        }
        while k < n
            invariant
                self.wf(),
                self.w == old(self).w,
                self.h == old(self).h,
                cw == self.w,
                orig == old(self).buf@,
                n == s@.len(),
                0 <= k <= n,
                cx == x + 8 * scale * k,
                i32::MIN <= x + 8 * scale * s@.len() <= i32::MAX,
                n > 0 ==> i32::MIN <= 8 * scale <= i32::MAX,
                self.buf@ == Seq::new(orig.len(), |i: int|
                    if text_covers(s@, k as int, x as int, y as int, scale as int, i % cw, i / cw) { color } else { orig[i] }),
                k > 0 && s@[0] == ' ' ==> legacy_glyph(32) == blank_glyph(),
            decreases n - k,
        {
            proof {
                assert(i32::MIN <= x + 8 * scale * k <= i32::MAX) by (nonlinear_arith)
                    requires
                        i32::MIN <= x + 8 * scale * n <= i32::MAX,
                        i32::MIN <= x <= i32::MAX,
                        0 <= k < n;
                assert(i32::MIN <= x + 8 * scale * (k + 1) <= i32::MAX) by (nonlinear_arith)
                    requires
                        i32::MIN <= x + 8 * scale * n <= i32::MAX,
                        i32::MIN <= x <= i32::MAX,
                        0 <= k < n;
                assert(8 * scale * (k + 1) == 8 * scale * k + 8 * scale) by (nonlinear_arith);
            }
            let c = s.get_char(k);
            self.glyph(cx as i32, y, c, scale, color);
            proof {
                let gx = x + 8 * scale * k;
                assert forall|i: int| 0 <= i < orig.len() implies #[trigger] self.buf@[i] ==
                    if text_covers(s@, k + 1, x as int, y as int, scale as int, i % cw, i / cw) { color } else { orig[i] } by {
                    let px = i % cw;
                    let py = i / cw;
                    let now = text_covers(s@, k + 1, x as int, y as int, scale as int, px, py);
                    let was = text_covers(s@, k as int, x as int, y as int, scale as int, px, py);
                    let here = glyph_covers(c, gx, y as int, scale as int, px, py);
                    if now {
                        let j = choose|j: int| 0 <= j < k + 1 && #[trigger] glyph_covers(s@[j], x + 8 * scale * j, y as int, scale as int, px, py);
                        if j < k {
                            assert(was);
                        }
                    }
                    if was {
                        let j = choose|j: int| 0 <= j < k && #[trigger] glyph_covers(s@[j], x + 8 * scale * j, y as int, scale as int, px, py);
                        assert(now);
                    }
                    if here {
                        assert(glyph_covers(s@[k as int], x + 8 * scale * k, y as int, scale as int, px, py));
                    }
                }
                assert(self.buf@ =~= Seq::new(orig.len(), |i: int|
                    if text_covers(s@, k + 1, x as int, y as int, scale as int, i % cw, i / cw) { color } else { orig[i] }));
            }
            k = k + 1;
            cx = cx + 8 * scale as i64;
        }
        proof {
            assert(self.buf@ =~= text_spec(orig, cw, x as int, y as int, s@, scale as int, color));
            if n > 0 && forall|j: int| 0 <= j < s@.len() ==> #[trigger] s@[j] == ' ' {
                assert(s@[0] == ' ');
                assert forall|i: int| 0 <= i < orig.len() implies #[trigger] self.buf@[i] == orig[i] by {
                    if text_covers(s@, n as int, x as int, y as int, scale as int, i % cw, i / cw) {
                        let j = choose|j: int| 0 <= j < n && #[trigger] glyph_covers(s@[j], x + 8 * scale * j, y as int,
                            scale as int, i % cw, i / cw);
                        let (r, c) = choose|r: int, c: int| 0 <= r < 8 && 0 <= c < 8 && #[trigger] glyph_lit(s@[j], r, c)
                            && in_rect(i % cw, i / cw, x + 8 * scale * j + c * scale, y + r * scale, scale as int, scale as int);
                        assert(s@[j] == ' ');
                        assert(fold_spec(' ') == ' ');
                        assert(legacy_glyph(32)[r] == 0u8);
                        lemma_blank_row(c as u8);
                    }
                }
                assert(self.buf@ =~= orig);
            }
        }
    }

    /// Draws the text `s` centred horizontally on `cx`.
    pub fn text_centered(&mut self, cx: i32, y: i32, s: &str, scale: i32, color: u32)
        requires
            old(self).wf(),
            s@.len() <= i32::MAX,
            8 * s@.len() <= i32::MAX,
            i32::MIN <= 8 * scale * s@.len() <= i32::MAX,
            i32::MIN <= cx - quot(8 * scale * s@.len(), 2) <= i32::MAX,
            i32::MIN <= cx - quot(8 * scale * s@.len(), 2) + 8 * scale * s@.len() <= i32::MAX,
            s@.len() > 0 ==> i32::MIN <= 8 * scale <= i32::MAX,
        ensures
            final(self).wf(),
            final(self).w == old(self).w,
            final(self).h == old(self).h,
            final(self).buf@ == text_spec(old(self).buf@, old(self).w as int, cx - quot(8 * scale * s@.len(), 2),
                y as int, s@, scale as int, color),
    {
        let tw = text_w(s, scale);
        self.text(cx - tw / 2, y, s, scale, color);
    }
}

/// A clickable rectangular button (immediate mode: rebuilt every frame).
pub struct Button {
    pub x: i32,
    pub y: i32,
    pub w: i32,
    pub h: i32,
    pub label: String,
}

/// Text scale of a button of height `h`: (h − 8) / 8, between 1 and 3.
pub open spec fn button_scale(h: int) -> int {
    let s = quot(h - 8, 8);
    if s < 1 { 1 } else if s > 3 { 3 } else { s }
}

impl Button {
    /// A button at (x, y) of size w × h showing `label`.
    pub fn new(x: i32, y: i32, w: i32, h: i32, label: String) -> (b: Self)
        ensures
            b.x == x,
            b.y == y,
            b.w == w,
            b.h == h,
            b.label == label,
    {
        Self { x, y, w, h, label }
    }

    /// Is (mx, my) on the button?
    pub fn hit(&self, mx: i32, my: i32) -> (r: bool)
        ensures
            r == in_rect(mx as int, my as int, self.x as int, self.y as int, self.w as int, self.h as int),
    {
        mx as i64 >= self.x as i64 && (mx as i64) < self.x as i64 + self.w as i64
            && my as i64 >= self.y as i64 && (my as i64) < self.y as i64 + self.h as i64
    }

    /// Where the label starts: centred in the button.
    pub open spec fn label_origin(&self) -> (int, int) {
        let scale = button_scale(self.h as int);
        let tw = 8 * scale * self.label@.len();
        (self.x + quot(self.w - tw, 2), self.y + quot(self.h - 8 * scale, 2))
    }

    /// The button can be drawn without overflow.
    pub open spec fn drawable(&self) -> bool {
        let scale = button_scale(self.h as int);
        let tw = 8 * scale * self.label@.len();
        let o = self.label_origin();
        &&& self.h >= i32::MIN + 8
        &&& self.label@.len() <= 0x0400_0000
        &&& i32::MIN <= self.w - tw <= i32::MAX
        &&& i32::MIN <= o.0 <= i32::MAX
        &&& i32::MIN <= o.1 <= i32::MAX
        &&& i32::MIN <= o.0 + tw <= i32::MAX
    }

    /// Draws the button: a panel (accent when `active`, lighter when `hover`),
    /// its outline, and its label centred.
    pub fn draw(&self, c: &mut Canvas, hover: bool, active: bool)
        requires
            old(c).wf(),
            self.drawable(),
        ensures
            final(c).wf(),
            final(c).w == old(c).w,
            final(c).h == old(c).h,
            ({
                let bg = if active { ACCENT } else if hover { PANEL_HI } else { PANEL };
                let border = if active || hover { ACCENT_HI } else { BORDER };
                let cw = old(c).w as int;
                let b1 = fill_spec(old(c).buf@, cw, self.x as int, self.y as int, self.w as int, self.h as int, bg);
                let b2 = outline_spec(b1, cw, self.x as int, self.y as int, self.w as int, self.h as int, border);
                let o = self.label_origin();
                final(c).buf@ == text_spec(b2, cw, o.0, o.1, self.label@, button_scale(self.h as int), TEXT)
            }),
    {
        let bg = if active {
            ACCENT
        } else if hover {
            PANEL_HI
        } else {
            PANEL
        };
        let border = if active || hover { ACCENT_HI } else { BORDER };
        c.fill_rect(self.x, self.y, self.w, self.h, bg);
        c.rect_outline(self.x, self.y, self.w, self.h, border);
        let q = (self.h - 8) / 8;
        let scale = if q < 1 { 1 } else if q > 3 { 3 } else { q };
        assert(scale == button_scale(self.h as int));
        assert(0 < 8 * scale * self.label@.len() <= 24 * 0x0400_0000 || self.label@.len() == 0) by (nonlinear_arith)
            requires 1 <= scale <= 3, self.label@.len() <= 0x0400_0000;
        let tw = text_w(self.label.as_str(), scale);
        c.text(self.x + (self.w - tw) / 2, self.y + (self.h - 8 * scale) / 2, self.label.as_str(), scale, TEXT);
    }
}

} // verus!
