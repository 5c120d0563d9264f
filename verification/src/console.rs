//! The text console: characters in a grid on the framebuffer, with a cursor,
//! line breaks, backspace and scrolling.
use crate::framebuffer::{glyph_number, packed, Canvas, Font, Pic, Rgb, GLYPH_HEIGHT, GLYPH_WIDTH};
use crate::limine::Framebuffer;
use vstd::prelude::*;
use vstd::string::*;

verus! {

pub const FG: Rgb = (220, 220, 220);

pub const BG: Rgb = (18, 18, 24);

pub struct Console {
    pub canvas: Option<Canvas>,
    pub font: Font,
    pub cols: u64,
    pub rows: u64,
    pub col: u64,
    pub row: u64,
    pub cursor_on: bool,
}

/// What the console shows, with where the next character goes.
pub ghost struct ConsoleV {
    pub fb: Framebuffer,
    pub pic: Pic,
    pub font: Font,
    pub cols: int,
    pub rows: int,
    pub col: int,
    pub row: int,
    pub cursor_on: bool,
}

impl ConsoleV {
    /// The console with the cell at the cursor inverted.
    pub open spec fn flipped(self) -> ConsoleV {
        ConsoleV { pic: self.pic.inverted(self.col * 8, self.row * 8, 8, 8), ..self }
    }

    /// The console without a cursor.
    pub open spec fn hidden(self) -> ConsoleV {
        if self.cursor_on {
            ConsoleV { cursor_on: false, ..self.flipped() }
        } else {
            self
        }
    }

    /// The console with a character drawn where the next one goes.
    pub open spec fn drawn(self, code: u32) -> ConsoleV {
        ConsoleV {
            pic: self.pic.with_glyph(
                self.col * 8,
                self.row * 8,
                self.font.glyphs@[glyph_number(code)]@,
                packed(self.fb, FG),
                packed(self.fb, BG),
            ),
            ..self
        }
    }

    /// The console after a line break. The last line moves everything up.
    pub open spec fn newline(self) -> ConsoleV {
        let h = self.hidden();
        if h.row + 1 >= h.rows {
            ConsoleV { col: 0, pic: h.pic.scrolled(8, packed(h.fb, BG)), ..h }
        } else {
            ConsoleV { col: 0, row: h.row + 1, ..h }
        }
    }

    /// The console after a backspace, which clears the character before.
    pub open spec fn backspace(self) -> ConsoleV {
        let h = self.hidden();
        if h.col > 0 {
            (ConsoleV { col: h.col - 1, ..h }).drawn(0x20)
        } else if h.row > 0 {
            (ConsoleV {
                row: h.row - 1,
                col: if h.cols > 0 {
                    h.cols - 1
                } else {
                    0
                },
                ..h
            }).drawn(0x20)
        } else {
            h
        }
    }

    /// The console after a character.
    pub open spec fn typed(self, c: char) -> ConsoleV {
        if c == '\n' {
            self.newline()
        } else if c == '\r' {
            self
        } else if c as u32 == 8 {
            self.backspace()
        } else {
            let d = self.hidden().drawn(c as u32);
            let next = ConsoleV { col: d.col + 1, ..d };
            if next.col >= next.cols {
                next.newline()
            } else {
                next
            }
        }
    }

    /// The console after a text.
    pub open spec fn typed_all(self, text: Seq<char>) -> ConsoleV
        decreases text.len(),
    {
        if text.len() == 0 {
            self
        } else {
            self.typed_all(text.drop_last()).typed(text.last())
        }
    }
}

impl Console {
    pub open spec fn attached(self) -> bool {
        self.canvas is Some
    }

    pub open spec fn view(self) -> ConsoleV {
        ConsoleV {
            fb: self.canvas->0.fb,
            pic: self.canvas->0@,
            font: self.font,
            cols: self.cols as int,
            rows: self.rows as int,
            col: self.col as int,
            row: self.row as int,
            cursor_on: self.cursor_on,
        }
    }

    /// The cursor is on the grid.
    pub open spec fn wf(self) -> bool {
        &&& self.font.wf()
        &&& self.canvas matches Some(c) ==> {
            &&& c.wf()
            &&& self.cols == c.fb.width / 8
            &&& self.rows == c.fb.height / 8
        }
        &&& self.cols <= 0x1000_0000
        &&& self.rows <= 0x1000_0000
        &&& self.col < self.cols || self.col == 0
        &&& self.row < self.rows || self.row == 0
    }

    pub fn new(font: Font) -> (r: Console)
        requires
            font.wf(),
        ensures
            r.wf(),
            !r.attached(),
            !r.cursor_on,
            r.cols == 0,
            r.rows == 0,
            r.col == 0,
            r.row == 0,
            r.font == font,
    {
        Console { canvas: None, font, cols: 0, rows: 0, col: 0, row: 0, cursor_on: false }
    }

    /// Gives the console a screen to show its text on.
    pub fn attach(&mut self, canvas: Canvas)
        requires
            old(self).wf(),
            canvas.wf(),
        ensures
            final(self).wf(),
            final(self).canvas == Some(canvas),
            final(self).cols == canvas.fb.width / 8,
            final(self).rows == canvas.fb.height / 8,
            final(self).col == 0,
            final(self).row == 0,
            final(self).cursor_on == old(self).cursor_on,
            final(self).font == old(self).font,
    {
        self.cols = canvas.width() / GLYPH_WIDTH;
        self.rows = canvas.height() / GLYPH_HEIGHT;
        self.canvas = Some(canvas);
        self.col = 0;
        self.row = 0;
    }

    pub fn is_attached(&self) -> (r: bool)
        ensures
            r == self.attached(),
    {
        self.canvas.is_some()
    }

    /// The screen, to draw on.
    pub fn canvas_mut(&mut self) -> (r: Option<&mut Canvas>)
        ensures
            match r {
                Some(c) => {
                    &&& old(self).canvas == Some(*c)
                    &&& *final(self) == (Console { canvas: Some(*final(c)), ..*old(self) })
                },
                None => old(self).canvas is None && *final(self) == *old(self),
            },
    {
        match &mut self.canvas {
            Some(c) => Some(c),
            None => None,
        }
    }

    /// Clears the screen and goes back to its start.
    pub fn clear(&mut self)
        requires
            old(self).wf(),
        ensures
            final(self).wf(),
            final(self).attached() == old(self).attached(),
            final(self).col == 0,
            final(self).row == 0,
            !final(self).cursor_on,
            !old(self).attached() ==> *final(self) == (Console { col: 0, row: 0, cursor_on: false, ..*old(self) }),
            old(self).attached() ==> final(self)@ == (ConsoleV {
                pic: old(self)@.pic.filled(
                    0,
                    0,
                    old(self)@.fb.width as int,
                    old(self)@.fb.height as int,
                    packed(old(self)@.fb, BG),
                ),
                col: 0,
                row: 0,
                cursor_on: false,
                ..old(self)@
            }),
    {
        if let Some(canvas) = &mut self.canvas {
            canvas.clear(BG.0, BG.1, BG.2);
        }
        self.col = 0;
        self.row = 0;
        self.cursor_on = false;
    }

    fn invert_cursor_cell(&mut self)
        requires
            old(self).wf(),
        ensures
            final(self).wf(),
            final(self).attached() == old(self).attached(),
            old(self).attached() ==> final(self)@ == old(self)@.flipped(),
            !old(self).attached() ==> *final(self) == *old(self),
    {
        let x: u64 = self.col * GLYPH_WIDTH;
        let y: u64 = self.row * GLYPH_HEIGHT;
        if let Some(canvas) = &mut self.canvas {
            canvas.invert_rect(x, y, GLYPH_WIDTH, GLYPH_HEIGHT);
        }
    }

    /// Shows the cursor if it is hidden, and hides it if it is shown.
    pub fn toggle_cursor(&mut self)
        requires
            old(self).wf(),
        ensures
            final(self).wf(),
            final(self).attached() == old(self).attached(),
            final(self).cursor_on == !old(self).cursor_on,
            !old(self).attached() ==> *final(self) == (Console { cursor_on: !old(self).cursor_on, ..*old(self) }),
            old(self).attached() ==> final(self)@ == (ConsoleV {
                cursor_on: !old(self).cursor_on,
                ..old(self)@.flipped()
            }),
    {
        self.invert_cursor_cell();
        self.cursor_on = !self.cursor_on;
    }

    fn hide_cursor(&mut self)
        requires
            old(self).wf(),
        ensures
            final(self).wf(),
            final(self).attached() == old(self).attached(),
            old(self).attached() ==> final(self)@ == old(self)@.hidden(),
    {
        if self.cursor_on {
            self.invert_cursor_cell();
            self.cursor_on = false;
        }
    }

    fn newline(&mut self)
        requires
            old(self).wf(),
            old(self).attached(),
        ensures
            final(self).wf(),
            final(self).attached(),
            final(self)@ == old(self)@.newline(),
    {
        self.hide_cursor();
        self.col = 0;
        if self.row + 1 >= self.rows {
            if let Some(canvas) = &mut self.canvas {
                canvas.scroll_up(GLYPH_HEIGHT, BG);
            }
        } else {
            self.row += 1;
        }
    }

    fn draw_here(&mut self, c: char)
        requires
            old(self).wf(),
            old(self).attached(),
        ensures
            final(self).wf(),
            final(self).attached(),
            final(self)@ == old(self)@.drawn(c as u32),
    {
        let x: u64 = self.col * GLYPH_WIDTH;
        let y: u64 = self.row * GLYPH_HEIGHT;
        if let Some(canvas) = &mut self.canvas {
            canvas.draw_char(x, y, c, FG, BG, &self.font);
        }
    }

    fn backspace(&mut self)
        requires
            old(self).wf(),
            old(self).attached(),
        ensures
            final(self).wf(),
            final(self).attached(),
            final(self)@ == old(self)@.backspace(),
    {
        self.hide_cursor();
        if self.col > 0 {
            self.col -= 1;
        } else if self.row > 0 {
            self.row -= 1;
            self.col = if self.cols > 0 {
                self.cols - 1
            } else {
                0
            };
        } else {
            return;
        }
        self.draw_here(' ');
    }

    /// Shows a character, if there is a screen.
    pub fn write_char(&mut self, c: char)
        requires
            old(self).wf(),
        ensures
            final(self).wf(),
            final(self).attached() == old(self).attached(),
            old(self).attached() ==> final(self)@ == old(self)@.typed(c),
            !old(self).attached() ==> *final(self) == *old(self),
    {
        if self.canvas.is_none() {
            return;
        }
        if c == '\n' {
            self.newline();
        } else if c == '\r' {
        } else if c as u32 == 8 {
            self.backspace();
        } else {
            self.hide_cursor();
            self.draw_here(c);
            self.col += 1;
            if self.col >= self.cols {
                self.wrap();
            }
        }
    }

    /// Starts a new line once a character has filled the last column.
    fn wrap(&mut self)
        requires
            old(self).font.wf(),
            old(self).canvas matches Some(c) && c.wf() && old(self).cols == c.fb.width / 8 && old(self).rows
                == c.fb.height / 8,
            old(self).cols <= 0x1000_0000,
            old(self).rows <= 0x1000_0000,
            !old(self).cursor_on,
            old(self).row < old(self).rows || old(self).row == 0,
        ensures
            final(self).wf(),
            final(self).attached(),
            final(self)@ == old(self)@.newline(),
    {
        self.col = 0;
        if self.row + 1 >= self.rows {
            if let Some(canvas) = &mut self.canvas {
                canvas.scroll_up(GLYPH_HEIGHT, BG);
            }
        } else {
            self.row += 1;
        }
    }

    /// Shows a text, if there is a screen.
    pub fn write_str(&mut self, s: &str)
        requires
            old(self).wf(),
        ensures
            final(self).wf(),
            final(self).attached() == old(self).attached(),
            old(self).attached() ==> final(self)@ == old(self)@.typed_all(s@),
            !old(self).attached() ==> *final(self) == *old(self),
    {
        let n: usize = s.unicode_len();
        let ghost before = self@;
        assert(s@.take(0) =~= Seq::empty());
        for i in 0..n
            invariant
                n == s@.len(),
                self.wf(),
                before == old(self)@,
                self.attached() == old(self).attached(),
                old(self).attached() ==> self@ == before.typed_all(s@.take(i as int)),
                !old(self).attached() ==> *self == *old(self),
        {
            assert(s@.take(i + 1).drop_last() =~= s@.take(i as int));
            self.write_char(s.get_char(i));
        }
        assert(s@.take(n as int) =~= s@);
    }
}

/// Showing and hiding the cursor leaves the picture as it was.
pub proof fn law_cursor_blinks(v: ConsoleV)
    requires
        v.pic.wf(),
        !v.cursor_on,
    ensures
        (ConsoleV { cursor_on: true, ..v.flipped() }).hidden() == v,
{
    crate::framebuffer::law_invert_twice(v.pic, v.col * 8, v.row * 8, 8, 8);
}

} // verus!
