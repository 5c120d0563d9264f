//! What is seen on the screen, pixel by pixel, after drawing, typing on the
//! console and using the windows.
use crate::console::ConsoleV;
use crate::cursor::Arrow;
use crate::doom_driver::{framed, milliseconds, placed, target_area, DoomWindow};
use crate::framebuffer::{glyph_number, lit, mixed, packed, unpacked, Pic, Rgb};
use crate::limine::Framebuffer;
use crate::wm::{button_hit, pointed, title_hit, DesktopV, Window};
use vstd::prelude::*;

verus! {

// ---- Drawing ----

/// Whether a point is seen.
pub open spec fn seen(p: Pic, x: int, y: int) -> bool {
    0 <= x < p.width && 0 <= y < p.height
}

/// The colours of a framebuffer have a byte each.
pub open spec fn bytes_apart(fb: Framebuffer) -> bool {
    let (r, g, b) = (fb.red_mask_shift, fb.green_mask_shift, fb.blue_mask_shift);
    &&& r <= 24 && g <= 24 && b <= 24
    &&& r + 8 <= g || g + 8 <= r
    &&& r + 8 <= b || b + 8 <= r
    &&& g + 8 <= b || b + 8 <= g
}

proof fn lemma_bytes(r: u8, g: u8, b: u8, rs: u32, gs: u32, bs: u32)
    by (bit_vector)
    requires
        rs <= 24 && gs <= 24 && bs <= 24,
        rs + 8 <= gs || gs + 8 <= rs,
        rs + 8 <= bs || bs + 8 <= rs,
        gs + 8 <= bs || bs + 8 <= gs,
    ensures
        ((((r as u32) << rs | (g as u32) << gs | (b as u32) << bs) >> rs) & 0xFF) as u8 == r,
        ((((r as u32) << rs | (g as u32) << gs | (b as u32) << bs) >> gs) & 0xFF) as u8 == g,
        ((((r as u32) << rs | (g as u32) << gs | (b as u32) << bs) >> bs) & 0xFF) as u8 == b,
{
}

/// The word for a colour has red, green and blue where the framebuffer says,
/// and taking it apart gives the colour back.
pub proof fn law_colours(fb: Framebuffer, c: Rgb)
    requires
        bytes_apart(fb),
    ensures
        ((packed(fb, c) >> fb.red_mask_shift as u32) & 0xFF) as u8 == c.0,
        ((packed(fb, c) >> fb.green_mask_shift as u32) & 0xFF) as u8 == c.1,
        ((packed(fb, c) >> fb.blue_mask_shift as u32) & 0xFF) as u8 == c.2,
        unpacked(fb, packed(fb, c)) == c,
{
    lemma_bytes(
        c.0,
        c.1,
        c.2,
        fb.red_mask_shift as u32,
        fb.green_mask_shift as u32,
        fb.blue_mask_shift as u32,
    );
}

/// A mix of two shades lies between them: all of the first at 255, all of the
/// second at 0, and in proportion between.
pub proof fn law_mixed(over: u8, under: u8, a: u8)
    ensures
        mixed(over, under, 255) == over,
        mixed(over, under, 0) == under,
        over <= mixed(over, under, a) <= under || under <= mixed(over, under, a) <= over,
        255 * (mixed(over, under, a) - under) <= a * (over - under) < 255 * (mixed(over, under, a) - under) + 255,
{
    let t = over * a + under * (255 - a);
    assert(over * 255 + under * (255 - 255) == 255 * over) by (nonlinear_arith);
    assert(over * 0 + under * (255 - 0) == 255 * under) by (nonlinear_arith);
    assert(t == a * (over - under) + 255 * under) by (nonlinear_arith)
        requires
            t == over * a + under * (255 - a),
    ;
    assert(0 <= t <= 255 * 255) by (nonlinear_arith)
        requires
            t == over * a + under * (255 - a),
            0 <= over <= 255,
            0 <= under <= 255,
            0 <= a <= 255,
    ;
    assert(over <= under ==> 255 * over <= t <= 255 * under) by (nonlinear_arith)
        requires
            t == over * a + under * (255 - a),
            0 <= a <= 255,
    ;
    assert(under <= over ==> 255 * under <= t <= 255 * over) by (nonlinear_arith)
        requires
            t == over * a + under * (255 - a),
            0 <= a <= 255,
    ;
}

/// A rectangle that is filled has its colour, and nothing else changes.
pub proof fn law_filled(p: Pic, x0: int, y0: int, w: int, h: int, c: u32, x: int, y: int)
    requires
        p.wf(),
        seen(p, x, y),
    ensures
        p.filled(x0, y0, w, h, c).cells[y][x] == if 0 <= x - x0 < w && 0 <= y - y0 < h {
            c
        } else {
            p.cells[y][x]
        },
{
}

/// A character is eight by eight pixels: of a row, bit 0 is the leftmost. It
/// has both its colours, and nothing else changes.
pub proof fn law_glyph(p: Pic, x0: int, y0: int, glyph: Seq<u8>, fg: u32, bg: u32, x: int, y: int)
    requires
        p.wf(),
        seen(p, x, y),
    ensures
        p.with_glyph(x0, y0, glyph, fg, bg).cells[y][x] == if 0 <= x - x0 < 8 && 0 <= y - y0 < 8 {
            if bit(glyph[y - y0], x - x0) {
                fg
            } else {
                bg
            }
        } else {
            p.cells[y][x]
        },
{
    if 0 <= x - x0 < 8 && 0 <= y - y0 < 8 {
        lemma_lit(glyph[y - y0]);
    }
}

/// Whether a byte has bit number `i` set.
pub open spec fn bit(b: u8, i: int) -> bool {
    if i == 0 {
        b % 2 == 1
    } else if i == 1 {
        b / 2 % 2 == 1
    } else if i == 2 {
        b / 4 % 2 == 1
    } else if i == 3 {
        b / 8 % 2 == 1
    } else if i == 4 {
        b / 16 % 2 == 1
    } else if i == 5 {
        b / 32 % 2 == 1
    } else if i == 6 {
        b / 64 % 2 == 1
    } else {
        b / 128 % 2 == 1
    }
}

proof fn lemma_lit(b: u8)
    by (bit_vector)
    ensures
        lit(b, 0) == (b % 2 == 1),
        lit(b, 1) == (b / 2 % 2 == 1),
        lit(b, 2) == (b / 4 % 2 == 1),
        lit(b, 3) == (b / 8 % 2 == 1),
        lit(b, 4) == (b / 16 % 2 == 1),
        lit(b, 5) == (b / 32 % 2 == 1),
        lit(b, 6) == (b / 64 % 2 == 1),
        lit(b, 7) == (b / 128 % 2 == 1),
{
}

/// Scrolling shows at each point what was `rows` below it, and the given
/// colour where nothing was.
pub proof fn law_scrolled(p: Pic, rows: int, c: u32, x: int, y: int)
    requires
        p.wf(),
        0 <= rows,
        seen(p, x, y),
    ensures
        p.scrolled(rows, c).cells[y][x] == if seen(p, x, y + rows) {
            p.cells[y + rows][x]
        } else {
            c
        },
{
}

// ---- The console ----

/// A console without a blinking cursor, whose next character goes on the
/// grid.
pub open spec fn ready(v: ConsoleV) -> bool {
    &&& v.pic.wf()
    &&& !v.cursor_on
    &&& 0 <= v.col < v.cols
    &&& 0 <= v.row < v.rows
    &&& 8 * v.cols <= v.pic.width
    &&& 8 * v.rows <= v.pic.height
}

/// A character that is typed appears in the next cell, in the console's
/// colours, and no other pixel changes; the cell after it is the next.
pub proof fn law_typed(v: ConsoleV, c: char, x: int, y: int)
    requires
        ready(v),
        c as u32 >= 32,
        v.col + 1 < v.cols,
        seen(v.pic, x, y),
    ensures
        ({
            let w = v.typed(c);
            let (i, j) = (x - 8 * v.col, y - 8 * v.row);
            &&& ready(w)
            &&& w.row == v.row
            &&& w.col == v.col + 1
            &&& w.pic.cells[y][x] == if 0 <= i < 8 && 0 <= j < 8 {
                if bit(v.font.glyphs@[glyph_number(c as u32)]@[j], i) {
                    packed(v.fb, (220, 220, 220))
                } else {
                    packed(v.fb, (18, 18, 24))
                }
            } else {
                v.pic.cells[y][x]
            }
        }),
{
    law_glyph(
        v.pic,
        v.col * 8,
        v.row * 8,
        v.font.glyphs@[glyph_number(c as u32)]@,
        packed(v.fb, (220, 220, 220)),
        packed(v.fb, (18, 18, 24)),
        x,
        y,
    );
}

/// A backspace goes back to the cell before, also to the line before, and
/// leaves a space there; at the very start it does nothing.
pub proof fn law_backspace(v: ConsoleV, x: int, y: int)
    requires
        ready(v),
        seen(v.pic, x, y),
    ensures
        ({
            let w = v.typed('\u{8}');
            let (i, j) = (x - 8 * w.col, y - 8 * w.row);
            &&& ready(w)
            &&& if v.col == 0 && v.row == 0 {
                w == v
            } else {
                &&& w.row * v.cols + w.col == v.row * v.cols + v.col - 1
                &&& w.pic.cells[y][x] == if 0 <= i < 8 && 0 <= j < 8 {
                    if bit(v.font.glyphs@[32]@[j], i) {
                        packed(v.fb, (220, 220, 220))
                    } else {
                        packed(v.fb, (18, 18, 24))
                    }
                } else {
                    v.pic.cells[y][x]
                }
            }
        }),
{
    let w = v.typed('\u{8}');
    if v.col > 0 || v.row > 0 {
        law_glyph(
            v.pic,
            w.col * 8,
            w.row * 8,
            v.font.glyphs@[32]@,
            packed(v.fb, (220, 220, 220)),
            packed(v.fb, (18, 18, 24)),
            x,
            y,
        );
        assert((v.row - 1) * v.cols + v.cols == v.row * v.cols) by (nonlinear_arith);
    }
}

/// A line break goes to the start of the next line; on the last one, what is
/// on the screen moves up by a line.
pub proof fn law_newline(v: ConsoleV, x: int, y: int)
    requires
        ready(v),
        seen(v.pic, x, y),
    ensures
        ({
            let w = v.typed('\n');
            &&& ready(w)
            &&& w.col == 0
            &&& if v.row + 1 < v.rows {
                w.row == v.row + 1 && w.pic == v.pic
            } else {
                w.row == v.row && w.pic.cells[y][x] == if y + 8 < v.pic.height {
                    v.pic.cells[y + 8][x]
                } else {
                    packed(v.fb, (18, 18, 24))
                }
            }
        }),
{
    law_scrolled(v.pic, 8, packed(v.fb, (18, 18, 24)), x, y);
}

/// The last cell of a line is followed by the first of the next.
pub proof fn law_wrapped(v: ConsoleV, c: char)
    requires
        ready(v),
        c as u32 >= 32,
        v.col + 1 == v.cols,
    ensures
        v.typed(c).col == 0,
        v.row + 1 < v.rows ==> v.typed(c).row == v.row + 1,
        v.row + 1 == v.rows ==> v.typed(c).row == v.row,
{
}

// ---- Windows ----

/// Whether a point is in the top 20 rows of a window.
pub open spec fn on_title(w: Window, x: int, y: int) -> bool {
    w.x <= x < w.x + w.w && w.y <= y < w.y + 20
}

/// Whether a point is in the 20 by 20 pixels at the top right of a window.
pub open spec fn on_button(w: Window, x: int, y: int) -> bool {
    w.x + w.w - 20 <= x < w.x + w.w && w.y <= y < w.y + 20
}

proof fn lemma_button_hit(ws: Seq<Window>, n: int, mx: i32, my: i32)
    requires
        0 <= n <= ws.len(),
    ensures
        match button_hit(ws, n, mx, my) {
            None => forall|j: int| 0 <= j < n ==> !on_button(#[trigger] ws[j], mx as int, my as int),
            Some(i) => 0 <= i < n && on_button(ws[i], mx as int, my as int) && forall|j: int|
                i < j < n ==> !on_button(#[trigger] ws[j], mx as int, my as int),
        },
    decreases n,
{
    if n > 0 {
        lemma_button_hit(ws, n - 1, mx, my);
    }
}

proof fn lemma_title_hit(ws: Seq<Window>, n: int, mx: i32, my: i32)
    requires
        0 <= n <= ws.len(),
    ensures
        match title_hit(ws, n, mx, my) {
            None => forall|j: int| 0 <= j < n ==> !on_title(#[trigger] ws[j], mx as int, my as int),
            Some(i) => 0 <= i < n && on_title(ws[i], mx as int, my as int) && forall|j: int|
                i < j < n ==> !on_title(#[trigger] ws[j], mx as int, my as int),
        },
    decreases n,
{
    if n > 0 {
        lemma_title_hit(ws, n - 1, mx, my);
    }
}

/// A press on close buttons closes the topmost window that has one there, and
/// no other; the rest keep their order.
pub proof fn law_press_closes(d: DesktopV, mx: i32, my: i32, i: int)
    requires
        0 <= i < d.windows.len(),
        on_button(d.windows[i], mx as int, my as int),
        forall|j: int| i < j < d.windows.len() ==> !on_button(#[trigger] d.windows[j], mx as int, my as int),
    ensures
        d.pressed(mx, my).windows.len() == d.windows.len() - 1,
        forall|j: int| 0 <= j < i ==> d.pressed(mx, my).windows[j] == d.windows[j],
        forall|j: int| i <= j < d.windows.len() - 1 ==> d.pressed(mx, my).windows[j] == d.windows[j + 1],
        d.pressed(mx, my).dragging == d.dragging,
{
    lemma_button_hit(d.windows, d.windows.len() as int, mx, my);
}

/// A press on title bars, and on no close button, takes the topmost window
/// that has one there to the top and holds it by that point.
pub proof fn law_press_grabs(d: DesktopV, mx: i32, my: i32, i: int)
    requires
        0 <= i < d.windows.len() <= usize::MAX,
        d.windows[i].wf(),
        0 <= mx,
        0 <= my,
        forall|j: int| 0 <= j < d.windows.len() ==> !on_button(#[trigger] d.windows[j], mx as int, my as int),
        on_title(d.windows[i], mx as int, my as int),
        forall|j: int| i < j < d.windows.len() ==> !on_title(#[trigger] d.windows[j], mx as int, my as int),
    ensures
        ({
            let n = d.windows.len() as int;
            let e = d.pressed(mx, my);
            &&& e.windows.len() == n
            &&& e.windows[n - 1] == d.windows[i]
            &&& forall|j: int| 0 <= j < i ==> e.windows[j] == d.windows[j]
            &&& forall|j: int| i <= j < n - 1 ==> e.windows[j] == d.windows[j + 1]
            &&& e.dragging matches Some((k, ox, oy))
            &&& k == n - 1
            &&& d.windows[i].x + ox == mx
            &&& d.windows[i].y + oy == my
        }),
{
    lemma_button_hit(d.windows, d.windows.len() as int, mx, my);
    lemma_title_hit(d.windows, d.windows.len() as int, mx, my);
}

/// A press beside all title bars and close buttons does nothing.
pub proof fn law_press_misses(d: DesktopV, mx: i32, my: i32)
    requires
        forall|j: int|
            0 <= j < d.windows.len() ==> !on_button(#[trigger] d.windows[j], mx as int, my as int) && !on_title(
                d.windows[j],
                mx as int,
                my as int,
            ),
    ensures
        d.pressed(mx, my) == d,
{
    lemma_button_hit(d.windows, d.windows.len() as int, mx, my);
    lemma_title_hit(d.windows, d.windows.len() as int, mx, my);
}

/// While the button stays down, the window that is held goes along with the
/// mouse, as far as the screen goes, and no other moves. A window that is let
/// go stays where it is.
pub proof fn law_drag(d: DesktopV, mx: i32, my: i32, k: usize, ox: i32, oy: i32, j: int)
    requires
        d.dragging == Some((k, ox, oy)),
        k < d.windows.len(),
        d.prev_left_down,
        d.can_drag(mx, my),
        0 <= j < d.windows.len(),
        d.screen_w <= i32::MAX,
        d.screen_h <= i32::MAX,
    ensures
        ({
            let e = d.moved(mx, my, true);
            let (w, v) = (d.windows[j], e.windows[j]);
            &&& e.windows.len() == d.windows.len()
            &&& e.dragging == d.dragging
            &&& v == Window { x: v.x, y: v.y, ..w }
            &&& j != k ==> v == w
            &&& j == k && 0 <= mx - ox <= d.screen_w - w.w ==> v.x + ox == mx
            &&& j == k && 0 <= my - oy <= d.screen_h - 20 ==> v.y + oy == my
            &&& j == k ==> 0 <= v.x <= d.screen_w - w.w && 0 <= v.y <= d.screen_h - 20
            &&& d.moved(mx, my, false).windows == d.windows
            &&& d.moved(mx, my, false).dragging is None
        }),
{
}

proof fn lemma_pointed(p: Pic, fb: Framebuffer, arrow: Arrow, mx: int, my: int, n: int, x: int, y: int)
    requires
        p.wf(),
        seen(p, x, y),
        0 <= n <= 1024,
    ensures
        ({
            let q = pointed(p, fb, arrow, mx, my, n);
            let (i, j) = (x - mx + 1, y - my + 1);
            let (r, g, b, a) = arrow.at(i, j);
            &&& q.wf()
            &&& q.width == p.width && q.height == p.height && q.stride == p.stride
            &&& q.cells[y][x] == if 0 <= i < 32 && 0 <= j < 32 && 32 * j + i < n {
                p.blended(fb, x, y, (r, g, b), a).cells[y][x]
            } else {
                p.cells[y][x]
            }
        }),
    decreases n,
{
    if n > 0 {
        lemma_pointed(p, fb, arrow, mx, my, n - 1, x, y);
        let q = pointed(p, fb, arrow, mx, my, n - 1);
        let u = mx - 1 + (n - 1) % 32;
        let v = my - 1 + (n - 1) / 32;
        if u == x && v == y {
            assert(x - mx + 1 == (n - 1) % 32);
            assert(y - my + 1 == (n - 1) / 32);
        } else {
            let (i, j) = (x - mx + 1, y - my + 1);
            assert(!(0 <= i < 32 && 0 <= j < 32 && 32 * j + i == n - 1));
        }
    }
}

/// The pointer has its tip, which is one pixel from its left and its top, at
/// the mouse. Each of its 32 by 32 pixels is mixed into the one it is over,
/// and no other changes.
pub proof fn law_pointer(p: Pic, fb: Framebuffer, arrow: Arrow, mx: int, my: int, x: int, y: int)
    requires
        p.wf(),
        seen(p, x, y),
    ensures
        ({
            let q = pointed(p, fb, arrow, mx, my, 1024);
            let (i, j) = (x - mx + 1, y - my + 1);
            let (r, g, b, a) = arrow.at(i, j);
            let (ur, ug, ub) = unpacked(fb, p.cells[y][x]);
            q.cells[y][x] == if !(0 <= i < 32 && 0 <= j < 32) || a == 0 {
                p.cells[y][x]
            } else if a == 255 {
                packed(fb, (r, g, b))
            } else {
                packed(fb, (mixed(r, ur, a), mixed(g, ug, a), mixed(b, ub, a)))
            }
        }),
{
    lemma_pointed(p, fb, arrow, mx, my, 1024, x, y);
}

// ---- The game ----

proof fn lemma_word(p: u32, c: Rgb)
    requires
        p == 0x1_0000 * c.0 + 0x100 * c.1 + c.2,
    ensures
        crate::doom_driver::frame_colour(p) == c,
{
}

/// A frame is shown point for point, red in the third lowest byte of a word
/// and blue in the lowest, and nothing else changes.
#[verifier::spinoff_prover]
pub proof fn law_framed(
    p: Pic,
    fb: Framebuffer,
    buf: Seq<u32>,
    w: int,
    x0: int,
    y0: int,
    dw: int,
    dh: int,
    x: int,
    y: int,
    c: Rgb,
)
    requires
        p.wf(),
        seen(p, x, y),
        0 <= x - x0 < dw && 0 <= y - y0 < dh ==> buf[(y - y0) * w + (x - x0)] == 0x1_0000 * c.0 + 0x100 * c.1 + c.2,
    ensures
        framed(p, fb, buf, w, x0, y0, dw, dh).cells[y][x] == if 0 <= x - x0 < dw && 0 <= y - y0 < dh {
            packed(fb, c)
        } else {
            p.cells[y][x]
        },
{
    if 0 <= x - x0 < dw && 0 <= y - y0 < dh {
        lemma_word(buf[(y - y0) * w + (x - x0)], c);
    }
}

/// Without a window a frame is in the middle of the screen, with as much
/// space on its left as on its right and above as below, up to one pixel. In
/// a window it is right below the title bar, and within the window.
pub proof fn law_frame_place(window: Option<DoomWindow>, fb: Framebuffer, w: int, h: int)
    requires
        0 <= w,
        0 <= h,
        window matches Some(win) ==> win.wf(),
    ensures
        ({
            let (x, y, dw, dh) = target_area(window, fb, w, h);
            &&& 0 <= dw <= w && 0 <= dh <= h
            &&& match window {
                None => {
                    &&& x + dw <= fb.width && y + dh <= fb.height
                    &&& w <= fb.width ==> dw == w
                    &&& h <= fb.height ==> dh == h
                    &&& 0 <= (fb.width - dw - x) - x <= 1
                    &&& 0 <= (fb.height - dh - y) - y <= 1
                },
                Some(win) => {
                    &&& x == win.x && y == win.y + 20
                    &&& dw <= win.w && (w <= win.w ==> dw == w)
                    &&& dh <= win.h && (h + 20 <= win.h ==> dh == h) && (dh > 0 ==> 20 + dh <= win.h)
                },
            }
        }),
{
}

/// The game's window is in the middle of the screen: 640 by 400 pixels of
/// the game below 20 of a title, or what of it the screen has room for.
pub proof fn law_window_place(sw: int, sh: int)
    requires
        0 <= sw,
        0 <= sh,
    ensures
        ({
            let (x, y, w, h) = placed(sw, sh);
            &&& 0 <= x && x + w <= sw && 0 <= y && y + h <= sh
            &&& 0 <= (sw - w - x) - x <= 1
            &&& 0 <= (sh - h - y) - y <= 1
            &&& w == 640 || w == sw && sw < 640
            &&& h == 420 || h == sh && sh < 420
        }),
{
}

/// A tick of the clock is ten milliseconds, and after 2^32 of those the
/// game's clock starts over.
pub proof fn law_milliseconds(ticks: u64)
    requires
        ticks <= 0x40_0000_0000_0000,
    ensures
        milliseconds(ticks) == 10 * ticks % 0x1_0000_0000,
{
    assert(ticks.wrapping_mul(1000) == ticks * 1000);
    assert(ticks * 1000 / 100 == 10 * ticks);
}

} // verus!
