//! Drawing on the framebuffer: pixels, rectangles and characters, blending,
//! scrolling, and saving and restoring the whole picture.
use crate::limine::Framebuffer;
use vstd::prelude::*;

verus! {

pub const GLYPH_WIDTH: u64 = 8;

pub const GLYPH_HEIGHT: u64 = 8;

/// The shapes of the first 128 characters: eight rows each, the leftmost
/// pixel in the lowest bit.
pub struct Font {
    pub glyphs: Vec<[u8; 8]>,
}

impl Font {
    pub open spec fn wf(self) -> bool {
        self.glyphs@.len() == 128
    }
}

/// A colour: how much red, green and blue.
pub type Rgb = (u8, u8, u8);

/// What is on the screen: rows of cells, of which the first `width` in each
/// row are seen.
#[verifier::ext_equal]
pub ghost struct Pic {
    pub width: int,
    pub height: int,
    pub stride: int,
    pub cells: Seq<Seq<u32>>,
}

impl Pic {
    /// The picture with one cell changed.
    pub open spec fn set(self, x: int, y: int, c: u32) -> Pic {
        Pic { cells: self.cells.update(y, self.cells[y].update(x, c)), ..self }
    }

    /// The picture with every cell `x`, `y` changed to `f(x, y)` if that is a
    /// colour.
    pub open spec fn painted(self, f: spec_fn(int, int) -> Option<u32>) -> Pic {
        Pic {
            cells: Seq::new(
                self.height as nat,
                |y: int|
                    Seq::new(
                        self.stride as nat,
                        |x: int|
                            match f(x, y) {
                                Some(c) => c,
                                None => self.cells[y][x],
                            },
                    ),
            ),
            ..self
        }
    }

    pub open spec fn wf(self) -> bool {
        &&& 0 <= self.width <= self.stride
        &&& 0 <= self.height
        &&& self.cells.len() == self.height
        &&& forall|y: int| 0 <= y < self.height ==> (#[trigger] self.cells[y]).len() == self.stride
    }

    /// The picture with a rectangle filled, as far as it is on the screen.
    pub open spec fn filled(self, x0: int, y0: int, w: int, h: int, c: u32) -> Pic {
        self.painted(
            |x: int, y: int|
                if x0 <= x < x0 + w && x < self.width && y0 <= y < y0 + h {
                    Some(c)
                } else {
                    None
                },
        )
    }

    /// The picture with a rectangle inverted, as far as it is on the screen.
    pub open spec fn inverted(self, x0: int, y0: int, w: int, h: int) -> Pic {
        self.painted(
            |x: int, y: int|
                if x0 <= x < x0 + w && x < self.width && y0 <= y < y0 + h {
                    Some(!self.cells[y][x])
                } else {
                    None
                },
        )
    }

    /// The picture with a character drawn, as far as it is on the screen.
    pub open spec fn with_glyph(self, x0: int, y0: int, glyph: Seq<u8>, fg: u32, bg: u32) -> Pic {
        self.painted(
            |x: int, y: int|
                if x0 <= x < x0 + 8 && x < self.width && y0 <= y < y0 + 8 {
                    Some(
                        if lit(glyph[y - y0], (x - x0) as u8) {
                            fg
                        } else {
                            bg
                        },
                    )
                } else {
                    None
                },
        )
    }

    /// The picture moved up by `rows`, with the bottom filled.
    pub open spec fn scrolled(self, rows: int, c: u32) -> Pic {
        let n = if rows < self.height {
            rows
        } else {
            self.height
        };
        Pic {
            cells: Seq::new(
                self.height as nat,
                |y: int|
                    if y < self.height - n {
                        self.cells[y + n]
                    } else {
                        Seq::new(
                            self.stride as nat,
                            |x: int|
                                if x < self.width {
                                    c
                                } else {
                                    self.cells[y][x]
                                },
                        )
                    },
            ),
            ..self
        }
    }
}

/// Whether a row of a glyph has the pixel in column `col` set.
pub open spec fn lit(bits: u8, col: u8) -> bool {
    (bits >> col) & 1 != 0
}

/// The framebuffer with its memory.
pub struct Canvas {
    pub fb: Framebuffer,
    pub memory: Vec<u32>,
}

/// The picture that a framebuffer's memory holds.
pub open spec fn pic_of(fb: Framebuffer, memory: Seq<u32>) -> Pic {
    let stride = (fb.pitch / 4) as int;
    Pic {
        width: fb.width as int,
        height: fb.height as int,
        stride,
        cells: Seq::new(
            fb.height as nat,
            |y: int| Seq::new(stride as nat, |x: int| memory[y * stride + x]),
        ),
    }
}

/// The word that stands for a colour.
pub open spec fn packed(fb: Framebuffer, c: Rgb) -> u32 {
    ((c.0 as u32) << (fb.red_mask_shift as u32)) | ((c.1 as u32) << (fb.green_mask_shift as u32)) | ((c.2 as u32) << (
    fb.blue_mask_shift as u32))
}

/// The colour that a word stands for.
pub open spec fn unpacked(fb: Framebuffer, w: u32) -> Rgb {
    (
        ((w >> (fb.red_mask_shift as u32)) & 0xFF) as u8,
        ((w >> (fb.green_mask_shift as u32)) & 0xFF) as u8,
        ((w >> (fb.blue_mask_shift as u32)) & 0xFF) as u8,
    )
}

/// Mixes a colour into another: `a` parts of 255.
pub open spec fn mixed(over: u8, under: u8, a: u8) -> u8 {
    ((over * a + under * (255 - a)) / 255) as u8
}

/// One cell of a picture in memory.
proof fn lemma_cell(stride: int, height: int, x: int, y: int)
    requires
        0 <= x < stride,
        0 <= y < height,
    ensures
        0 <= y * stride + x < stride * height,
{
    assert(y * stride + x < stride * height) by (nonlinear_arith)
        requires
            0 <= x < stride,
            0 <= y < height,
    ;
    assert(0 <= y * stride) by (nonlinear_arith)
        requires
            0 < stride,
            0 <= y,
    ;
}

/// Different cells stand at different places.
proof fn lemma_apart(stride: int, x: int, y: int, v: int, w: int)
    requires
        0 <= x < stride,
        0 <= v < stride,
        x != v || y != w,
    ensures
        y * stride + x != w * stride + v,
{
    if y != w {
        assert((y - w) * stride >= stride || (y - w) * stride <= -stride) by (nonlinear_arith)
            requires
                y != w,
                stride > 0,
        ;
        assert((y - w) * stride == y * stride - w * stride) by (nonlinear_arith);
    }
}

impl Canvas {
    pub open spec fn stride(self) -> int {
        (self.fb.pitch / 4) as int
    }

    pub open spec fn view(self) -> Pic {
        pic_of(self.fb, self.memory@)
    }

    /// The memory holds the whole picture, with four bytes for each pixel.
    pub open spec fn wf(self) -> bool {
        &&& self.fb.bpp == 32
        &&& self.fb.pitch % 4 == 0
        &&& self.fb.width <= self.stride()
        &&& self.memory@.len() == self.stride() * self.fb.height
        &&& self.memory@.len() <= usize::MAX
        &&& self.fb.height <= 0x7FFF_FFFF
        &&& self.fb.width <= 0x7FFF_FFFF
        &&& self.fb.red_mask_shift < 32
        &&& self.fb.green_mask_shift < 32
        &&& self.fb.blue_mask_shift < 32
    }

    pub fn new(fb: Framebuffer, memory: Vec<u32>) -> (r: Canvas)
        requires
            (Canvas { fb, memory }).wf(),
        ensures
            r == (Canvas { fb, memory }),
            r.wf(),
    {
        Canvas { fb, memory }
    }

    pub fn width(&self) -> (r: u64)
        ensures
            r == self.fb.width,
    {
        self.fb.width
    }

    pub fn height(&self) -> (r: u64)
        ensures
            r == self.fb.height,
    {
        self.fb.height
    }

    fn pack(&self, r: u8, g: u8, b: u8) -> (w: u32)
        requires
            self.wf(),
        ensures
            w == packed(self.fb, (r, g, b)),
    {
        ((r as u32) << (self.fb.red_mask_shift as u32)) | ((g as u32) << (self.fb.green_mask_shift as u32)) | ((
        b as u32) << (self.fb.blue_mask_shift as u32))
    }

    /// Sets one cell.
    fn put(&mut self, x: u64, y: u64, c: u32)
        requires
            old(self).wf(),
            x < old(self).fb.width,
            y < old(self).fb.height,
        ensures
            final(self).wf(),
            final(self).fb == old(self).fb,
            final(self)@ == old(self)@.set(x as int, y as int, c),
    {
        let stride: u64 = self.fb.pitch / 4;
        let ghost before = self@;
        let ghost s = self.stride();
        proof {
            lemma_cell(s, self.fb.height as int, x as int, y as int);
            assert(y * stride <= y * stride + x);
        }
        assert(y * stride + x < self.memory.len());
        let at: usize = (y * stride + x) as usize;
        let ghost mem = self.memory@;
        self.memory[at] = c;
        proof {
            assert forall|w: int, v: int|
                0 <= w < self.fb.height && 0 <= v < s implies #[trigger] self@.cells[w][v] == before.set(
                x as int,
                y as int,
                c,
            ).cells[w][v] by {
                lemma_cell(s, self.fb.height as int, v, w);
                if v != x || w != y {
                    lemma_apart(s, x as int, y as int, v, w);
                }
            }
            let after = before.set(x as int, y as int, c);
            assert forall|w: int| 0 <= w < self.fb.height implies #[trigger] self@.cells[w] =~= after.cells[w] by {}
            assert(self@.cells =~= after.cells);
        }
    }

    /// Reads one cell.
    fn cell(&self, x: u64, y: u64) -> (r: u32)
        requires
            self.wf(),
            x < self.fb.width,
            y < self.fb.height,
        ensures
            r == self@.cells[y as int][x as int],
    {
        let stride: u64 = self.fb.pitch / 4;
        proof {
            lemma_cell(self.stride(), self.fb.height as int, x as int, y as int);
        }
        assert(y * stride + x < self.memory.len());
        self.memory[(y * stride + x) as usize]
    }

    /// Sets one pixel, if it is on the screen.
    pub fn put_pixel(&mut self, x: u64, y: u64, r: u8, g: u8, b: u8)
        requires
            old(self).wf(),
        ensures
            final(self).wf(),
            final(self).fb == old(self).fb,
            final(self)@ == if x < old(self).fb.width && y < old(self).fb.height {
                old(self)@.set(x as int, y as int, packed(old(self).fb, (r, g, b)))
            } else {
                old(self)@
            },
    {
        if x >= self.fb.width || y >= self.fb.height {
            return;
        }
        let c: u32 = self.pack(r, g, b);
        self.put(x, y, c);
    }

    /// Fills a rectangle, as far as it is on the screen.
    pub fn fill_rect(&mut self, x0: u64, y0: u64, w: u64, h: u64, r: u8, g: u8, b: u8)
        requires
            old(self).wf(),
        ensures
            final(self).wf(),
            final(self).fb == old(self).fb,
            final(self)@ == old(self)@.filled(
                x0 as int,
                y0 as int,
                w as int,
                h as int,
                packed(old(self).fb, (r, g, b)),
            ),
    {
        let c: u32 = self.pack(r, g, b);
        let x1: u64 = clip(x0, w, self.fb.width);
        let y1: u64 = clip(y0, h, self.fb.height);
        let ghost before = self@;
        let mut y: u64 = y0;
        while y < y1
            invariant
                self.wf(),
                self.fb == old(self).fb,
                before == old(self)@,
                y1 <= self.fb.height,
                x1 <= self.fb.width,
                y0 <= y,
                y <= y1 || y == y0,
                self@.wf(),
                self@ == (Pic { cells: self@.cells, ..before }),
                forall|v: int, u: int|
                    0 <= v < before.height && 0 <= u < before.stride ==> #[trigger] self@.cells[v][u] == if y0 <= v < y
                        && x0 <= u < x1 {
                        c
                    } else {
                        before.cells[v][u]
                    },
            decreases y1 - y,
        {
            let mut x: u64 = x0;
            while x < x1
                invariant
                    self.wf(),
                    self.fb == old(self).fb,
                    before == old(self)@,
                    y < y1 <= self.fb.height,
                    x1 <= self.fb.width,
                    y0 <= y,
                    x0 <= x,
                    x <= x1 || x == x0,
                    self@.wf(),
                    self@ == (Pic { cells: self@.cells, ..before }),
                    forall|v: int, u: int|
                        0 <= v < before.height && 0 <= u < before.stride ==> #[trigger] self@.cells[v][u] == if (y0
                            <= v < y && x0 <= u < x1) || (v == y && x0 <= u < x) {
                            c
                        } else {
                            before.cells[v][u]
                        },
                decreases x1 - x,
            {
                self.put(x, y, c);
                x += 1;
            }
            y += 1;
        }
        proof {
            let after = before.filled(x0 as int, y0 as int, w as int, h as int, c);
            lemma_same(self@, after);
        }
    }

    /// Fills the screen with one colour.
    pub fn clear(&mut self, r: u8, g: u8, b: u8)
        requires
            old(self).wf(),
        ensures
            final(self).wf(),
            final(self).fb == old(self).fb,
            final(self)@ == old(self)@.filled(
                0,
                0,
                old(self).fb.width as int,
                old(self).fb.height as int,
                packed(old(self).fb, (r, g, b)),
            ),
    {
        let w: u64 = self.fb.width;
        let h: u64 = self.fb.height;
        self.fill_rect(0, 0, w, h, r, g, b);
    }

    /// Draws the glyph with the number `index`.
    pub(crate) fn draw_glyph(&mut self, x: u64, y: u64, index: usize, fg: Rgb, bg: Rgb, font: &Font)
        requires
            old(self).wf(),
            font.wf(),
            index < 128,
        ensures
            final(self).wf(),
            final(self).fb == old(self).fb,
            final(self)@ == old(self)@.with_glyph(
                x as int,
                y as int,
                font.glyphs@[index as int]@,
                packed(old(self).fb, fg),
                packed(old(self).fb, bg),
            ),
    {
        let on: u32 = self.pack(fg.0, fg.1, fg.2);
        let off: u32 = self.pack(bg.0, bg.1, bg.2);
        let glyph = font.glyphs[index];
        let ghost before = self@;
        let mut row: u64 = 0;
        while row < 8 && y < self.fb.height && y + row < self.fb.height
            invariant
                self.wf(),
                self.fb == old(self).fb,
                before == old(self)@,
                row <= 8,
                glyph@ == font.glyphs@[index as int]@,
                self@.wf(),
                self@ == (Pic { cells: self@.cells, ..before }),
                forall|v: int, u: int|
                    0 <= v < before.height && 0 <= u < before.stride ==> #[trigger] self@.cells[v][u] == if y <= v < y
                        + row && x <= u < x + 8 && u < before.width {
                        if lit(glyph@[v - y], (u - x) as u8) {
                            on
                        } else {
                            off
                        }
                    } else {
                        before.cells[v][u]
                    },
            decreases 8 - row,
        {
            let bits: u8 = glyph[row as usize];
            let mut col: u64 = 0;
            while col < 8 && x < self.fb.width && x + col < self.fb.width
                invariant
                    self.wf(),
                    self.fb == old(self).fb,
                    before == old(self)@,
                    row < 8,
                    y + row < self.fb.height,
                    col <= 8,
                    bits == glyph@[row as int],
                    self@.wf(),
                    self@ == (Pic { cells: self@.cells, ..before }),
                    forall|v: int, u: int|
                        0 <= v < before.height && 0 <= u < before.stride ==> #[trigger] self@.cells[v][u] == if x <= u
                            && u < before.width && ((y <= v < y + row && u < x + 8) || (v == y + row && u < x
                            + col)) {
                            if lit(glyph@[v - y], (u - x) as u8) {
                                on
                            } else {
                                off
                            }
                        } else {
                            before.cells[v][u]
                        },
                decreases 8 - col,
            {
                let k: u8 = col as u8;
                let set: bool = (bits >> k) & 1 != 0;
                self.put(
                    x + col,
                    y + row,
                    if set {
                        on
                    } else {
                        off
                    },
                );
                col += 1;
            }
            row += 1;
        }
        proof {
            let after = before.with_glyph(x as int, y as int, glyph@, on, off);
            lemma_same(self@, after);
        }
    }

    /// Draws a character; one that has no shape of its own is drawn as the
    /// first one.
    pub fn draw_char(&mut self, x: u64, y: u64, c: char, fg: Rgb, bg: Rgb, font: &Font)
        requires
            old(self).wf(),
            font.wf(),
        ensures
            final(self).wf(),
            final(self).fb == old(self).fb,
            final(self)@ == old(self)@.with_glyph(
                x as int,
                y as int,
                font.glyphs@[glyph_number(c as u32)]@,
                packed(old(self).fb, fg),
                packed(old(self).fb, bg),
            ),
    {
        let code: u32 = c as u32;
        let index: usize = if code < 128 {
            code as usize
        } else {
            0
        };
        self.draw_glyph(x, y, index, fg, bg, font);
    }

    /// Inverts a rectangle, as far as it is on the screen.
    pub fn invert_rect(&mut self, x0: u64, y0: u64, w: u64, h: u64)
        requires
            old(self).wf(),
        ensures
            final(self).wf(),
            final(self).fb == old(self).fb,
            final(self)@ == old(self)@.inverted(x0 as int, y0 as int, w as int, h as int),
    {
        let x1: u64 = clip(x0, w, self.fb.width);
        let y1: u64 = clip(y0, h, self.fb.height);
        let ghost before = self@;
        let mut y: u64 = y0;
        while y < y1
            invariant
                self.wf(),
                self.fb == old(self).fb,
                before == old(self)@,
                y1 <= self.fb.height,
                x1 <= self.fb.width,
                y0 <= y,
                y <= y1 || y == y0,
                self@.wf(),
                self@ == (Pic { cells: self@.cells, ..before }),
                forall|v: int, u: int|
                    0 <= v < before.height && 0 <= u < before.stride ==> #[trigger] self@.cells[v][u] == if y0 <= v < y
                        && x0 <= u < x1 {
                        !before.cells[v][u]
                    } else {
                        before.cells[v][u]
                    },
            decreases y1 - y,
        {
            let mut x: u64 = x0;
            while x < x1
                invariant
                    self.wf(),
                    self.fb == old(self).fb,
                    before == old(self)@,
                    y < y1 <= self.fb.height,
                    x1 <= self.fb.width,
                    y0 <= y,
                    x0 <= x,
                    x <= x1 || x == x0,
                    self@.wf(),
                    self@ == (Pic { cells: self@.cells, ..before }),
                    forall|v: int, u: int|
                        0 <= v < before.height && 0 <= u < before.stride ==> #[trigger] self@.cells[v][u] == if (y0
                            <= v < y && x0 <= u < x1) || (v == y && x0 <= u < x) {
                            !before.cells[v][u]
                        } else {
                            before.cells[v][u]
                        },
                decreases x1 - x,
            {
                let c: u32 = self.cell(x, y);
                self.put(x, y, !c);
                x += 1;
            }
            y += 1;
        }
        proof {
            let after = before.inverted(x0 as int, y0 as int, w as int, h as int);
            lemma_same(self@, after);
        }
    }

    /// Mixes a colour into one pixel: `alpha` parts of 255.
    pub fn blend_pixel(&mut self, x: u64, y: u64, r: u8, g: u8, b: u8, alpha: u8)
        requires
            old(self).wf(),
        ensures
            final(self).wf(),
            final(self).fb == old(self).fb,
            final(self)@ == old(self)@.blended(old(self).fb, x as int, y as int, (r, g, b), alpha),
    {
        if x >= self.fb.width || y >= self.fb.height || alpha == 0 {
            return;
        }
        if alpha == 255 {
            self.put_pixel(x, y, r, g, b);
            return;
        }
        let c: u32 = self.cell(x, y);
        let under_r: u8 = ((c >> (self.fb.red_mask_shift as u32)) & 0xFF) as u8;
        let under_g: u8 = ((c >> (self.fb.green_mask_shift as u32)) & 0xFF) as u8;
        let under_b: u8 = ((c >> (self.fb.blue_mask_shift as u32)) & 0xFF) as u8;
        let mixed_r: u8 = mix(r, under_r, alpha);
        let mixed_g: u8 = mix(g, under_g, alpha);
        let mixed_b: u8 = mix(b, under_b, alpha);
        self.put_pixel(x, y, mixed_r, mixed_g, mixed_b);
    }

    /// A copy of the framebuffer's memory.
    pub fn snapshot(&self) -> (r: Vec<u32>)
        ensures
            r@ == self.memory@,
    {
        let mut out: Vec<u32> = Vec::new();
        let n: usize = self.memory.len();
        for i in 0..n
            invariant
                n == self.memory@.len(),
                out@ == self.memory@.take(i as int),
        {
            out.push(self.memory[i]);
            assert(out@ =~= self.memory@.take(i + 1));
        }
        assert(self.memory@.take(n as int) =~= self.memory@);
        out
    }

    /// Puts a copy back into the framebuffer's memory, as far as it goes.
    pub fn blit(&mut self, data: &Vec<u32>)
        requires
            old(self).wf(),
        ensures
            final(self).wf(),
            final(self).fb == old(self).fb,
            final(self).memory@ == overlaid(old(self).memory@, data@),
    {
        let ghost before = self.memory@;
        let n: usize = if data.len() < self.memory.len() {
            data.len()
        } else {
            self.memory.len()
        };
        for i in 0..n
            invariant
                n <= data@.len(),
                n <= before.len(),
                self.memory@.len() == before.len(),
                self.fb == old(self).fb,
                forall|k: int|
                    0 <= k < before.len() ==> #[trigger] self.memory@[k] == if k < i {
                        data@[k]
                    } else {
                        before[k]
                    },
        {
            self.memory[i] = data[i];
        }
        assert(self.memory@ =~= overlaid(before, data@));
    }

    /// Moves the picture up by `rows_px` and fills the bottom.
    pub fn scroll_up(&mut self, rows_px: u64, bg: Rgb)
        requires
            old(self).wf(),
        ensures
            final(self).wf(),
            final(self).fb == old(self).fb,
            final(self)@ == old(self)@.scrolled(rows_px as int, packed(old(self).fb, bg)),
    {
        let h: u64 = self.fb.height;
        let w: u64 = self.fb.width;
        let rows: u64 = if rows_px < h {
            rows_px
        } else {
            h
        };
        let stride: u64 = self.fb.pitch / 4;
        let ghost before = self@;
        let ghost mem = self.memory@;
        let ghost s = self.stride();
        proof {
            assert(rows * stride <= h * stride) by (nonlinear_arith)
                requires
                    rows <= h,
            ;
            assert((h - rows) * stride == h * stride - rows * stride) by (nonlinear_arith)
                requires
                    rows <= h,
            ;
            assert(h * stride == s * self.fb.height) by (nonlinear_arith)
                requires
                    stride == s,
                    h == self.fb.height,
            ;
            assert(0 <= rows * stride) by (nonlinear_arith);
            assert(0 <= (h - rows) * stride) by (nonlinear_arith)
                requires
                    rows <= h,
            ;
        }
        assert(self.memory.len() == mem.len());
        let shift: usize = (rows * stride) as usize;
        let moved: usize = ((h - rows) * stride) as usize;
        for i in 0..moved
            invariant
                shift + moved <= mem.len() <= usize::MAX,
                self.memory@.len() == mem.len(),
                self.fb == old(self).fb,
                forall|k: int|
                    0 <= k < mem.len() ==> #[trigger] self.memory@[k] == if k < i {
                        mem[k + shift]
                    } else {
                        mem[k]
                    },
        {
            self.memory[i] = self.memory[i + shift];
        }
        let ghost after_move = self@;
        proof {
            assert forall|v: int, u: int| 0 <= v < h && 0 <= u < s implies #[trigger] after_move.cells[v][u] == if v
                < h - rows {
                before.cells[v + rows][u]
            } else {
                before.cells[v][u]
            } by {
                lemma_cell(s, h as int, u, v);
                assert((v + rows) * s == v * s + rows * s) by (nonlinear_arith);
                if v < h - rows {
                    lemma_cell(s, h as int, u, v + rows);
                    lemma_cell(s, h - rows, u, v);
                    assert(s * (h - rows) == (h - rows) * stride) by (nonlinear_arith)
                        requires
                            s == stride,
                    ;
                } else {
                    assert(v * s >= (h - rows) * s) by (nonlinear_arith)
                        requires
                            v >= h - rows,
                            s >= 0,
                    ;
                }
            }
        }
        self.fill_rect(0, h - rows, w, rows, bg.0, bg.1, bg.2);
        proof {
            let goal = before.scrolled(rows_px as int, packed(self.fb, bg));
            assert forall|v: int, u: int| 0 <= v < h && 0 <= u < s implies #[trigger] self@.cells[v][u] == goal.cells[v][u] by {
                assert(after_move.cells[v][u] == if v < h - rows {
                    before.cells[v + rows][u]
                } else {
                    before.cells[v][u]
                });
            }
            assert forall|v: int| 0 <= v < h implies #[trigger] self@.cells[v] =~= goal.cells[v] by {
                if v < h - rows {
                    assert(before.cells[v + rows].len() == s);
                }
            }
            assert(self@.cells =~= goal.cells);
        }
    }
}

/// The number of a character's glyph.
pub open spec fn glyph_number(c: u32) -> int {
    if c < 128 {
        c as int
    } else {
        0
    }
}

/// One sequence laid over the start of another.
pub open spec fn overlaid(under: Seq<u32>, over: Seq<u32>) -> Seq<u32> {
    Seq::new(
        under.len(),
        |i: int|
            if i < over.len() {
                over[i]
            } else {
                under[i]
            },
    )
}

impl Pic {
    /// The picture with a colour mixed into one pixel, if that is on the
    /// screen.
    pub open spec fn blended(self, fb: Framebuffer, x: int, y: int, c: Rgb, alpha: u8) -> Pic {
        if !(0 <= x < self.width && 0 <= y < self.height) || alpha == 0 {
            self
        } else if alpha == 255 {
            self.set(x, y, packed(fb, c))
        } else {
            let under = unpacked(fb, self.cells[y][x]);
            self.set(
                x,
                y,
                packed(
                    fb,
                    (mixed(c.0, under.0, alpha), mixed(c.1, under.1, alpha), mixed(c.2, under.2, alpha)),
                ),
            )
        }
    }
}

fn mix(over: u8, under: u8, a: u8) -> (r: u8)
    ensures
        r == mixed(over, under, a),
{
    proof {
        assert(over * a <= 255 * a) by (nonlinear_arith)
            requires
                over <= 255,
        ;
        assert(under * (255 - a) <= 255 * (255 - a)) by (nonlinear_arith)
            requires
                under <= 255,
                a <= 255,
        ;
        assert(0 <= over * a) by (nonlinear_arith);
        assert(0 <= under * (255 - a)) by (nonlinear_arith)
            requires
                a <= 255,
        ;
    }
    let o: u32 = over as u32;
    let u: u32 = under as u32;
    let k: u32 = a as u32;
    ((o * k + u * (255 - k)) / 255) as u8
}

fn clip(start: u64, len: u64, max: u64) -> (r: u64)
    ensures
        r <= max,
        r == if start + len < max {
            (start + len) as u64
        } else {
            max
        },
{
    match start.checked_add(len) {
        Some(end) => if end < max {
            end
        } else {
            max
        },
        None => max,
    }
}

/// Pictures with the same cells are the same.
pub proof fn lemma_same(a: Pic, b: Pic)
    requires
        a.wf(),
        b.wf(),
        a.width == b.width,
        a.height == b.height,
        a.stride == b.stride,
        forall|v: int, u: int|
            0 <= v < a.height && 0 <= u < a.stride ==> #[trigger] a.cells[v][u] == b.cells[v][u],
    ensures
        a == b,
{
    assert forall|v: int| 0 <= v < a.height implies #[trigger] a.cells[v] =~= b.cells[v] by {}
    assert(a.cells =~= b.cells);
}

/// Inverting a rectangle twice changes nothing.
pub proof fn law_invert_twice(p: Pic, x: int, y: int, w: int, h: int)
    requires
        p.wf(),
    ensures
        p.inverted(x, y, w, h).inverted(x, y, w, h) == p,
{
    let q = p.inverted(x, y, w, h);
    let r = q.inverted(x, y, w, h);
    assert forall|v: int, u: int| 0 <= v < p.height && 0 <= u < p.stride implies #[trigger] r.cells[v][u]
        == p.cells[v][u] by {
        let c = p.cells[v][u];
        assert(!!c == c) by (bit_vector);
    }
    lemma_same(r, p);
}

/// Drawing never touches what is not on the screen.
pub proof fn law_drawing_stays_on_screen(p: Pic, x: int, y: int, w: int, h: int, c: u32, v: int, u: int)
    requires
        p.wf(),
        0 <= v < p.height,
        p.width <= u < p.stride,
    ensures
        p.filled(x, y, w, h, c).cells[v][u] == p.cells[v][u],
        p.inverted(x, y, w, h).cells[v][u] == p.cells[v][u],
{
}


// ---- The boot splash ----

/// A picture with the first `n` columns of a bar on it: column `x` in the
/// colour `bar[x]`, 40 rows high.
pub open spec fn barred(p: Pic, fb: Framebuffer, bar: Seq<Rgb>, y: int, n: int) -> Pic
    decreases n,
{
    if n <= 0 {
        p
    } else {
        barred(p, fb, bar, y, n - 1).filled(n - 1, y, 1, 40, packed(fb, bar[n - 1]))
    }
}

/// The splash: a dark screen, a bar across its middle and a light border.
pub open spec fn splash(p: Pic, fb: Framebuffer, bar: Seq<Rgb>) -> Pic {
    let w = fb.width as int;
    let h = fb.height as int;
    let light = packed(fb, (240, 240, 240));
    let dark = p.filled(0, 0, w, h, packed(fb, (18, 18, 24)));
    barred(dark, fb, bar, h / 2 - 20, w).filled(0, 0, w, 4, light).filled(0, h - 4, w, 4, light).filled(
        0,
        0,
        4,
        h,
        light,
    ).filled(w - 4, 0, 4, h, light)
}

impl Canvas {
    /// Draws the boot splash. The bar has a colour for each column.
    pub fn draw_boot_splash(&mut self, bar: &Vec<Rgb>)
        requires
            old(self).wf(),
            bar@.len() == old(self).fb.width,
            old(self).fb.width >= 4,
            old(self).fb.height >= 40,
        ensures
            final(self).wf(),
            final(self).fb == old(self).fb,
            final(self)@ == splash(old(self)@, old(self).fb, bar@),
    {
        self.clear(18, 18, 24);
        let w: u64 = self.fb.width;
        let h: u64 = self.fb.height;
        let y: u64 = h / 2 - 20;
        let ghost dark = self@;
        let n: usize = bar.len();
        for x in 0..n
            invariant
                self.wf(),
                self.fb == old(self).fb,
                n == bar@.len(),
                self@ == barred(dark, self.fb, bar@, y as int, x as int),
        {
            let (r, g, b): Rgb = bar[x];
            self.fill_rect(x as u64, y, 1, 40, r, g, b);
        }
        self.fill_rect(0, 0, w, 4, 240, 240, 240);
        self.fill_rect(0, h - 4, w, 4, 240, 240, 240);
        self.fill_rect(0, 0, 4, h, 240, 240, 240);
        self.fill_rect(w - 4, 0, 4, h, 240, 240, 240);
    }
}
} // verus!
