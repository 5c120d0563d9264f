//! The window manager: windows that can be dragged by their title bars and
//! closed, and how they are drawn.
use crate::cursor::{pixel, Arrow, HOTSPOT_X, HOTSPOT_Y};
use crate::framebuffer::{glyph_number, overlaid, packed, pic_of, Canvas, Font, Pic, Rgb};
use crate::limine::Framebuffer;
use crate::mouse::{clamped, LEFT_BUTTON};
use vstd::prelude::*;
use vstd::string::*;

verus! {

pub const TITLE_BAR_H: i32 = 20;

pub const TITLE_COLOR: Rgb = (40, 40, 48);

pub const TITLE_TEXT: Rgb = (230, 230, 230);

pub const BORDER_COLOR: Rgb = (10, 10, 14);

pub const CLOSE_BTN_W: i32 = 20;

pub const CLOSE_BTN_COLOR: Rgb = (170, 50, 50);

pub const CLOSE_BTN_HOVER_COLOR: Rgb = (214, 74, 74);

/// Whether a number is one of 32 bits with a sign.
pub open spec fn fits(v: int) -> bool {
    i32::MIN <= v <= i32::MAX
}

/// Whether the places of a title's `n` characters can be computed.
pub open spec fn title_fits(x: int, n: int) -> bool {
    fits(x + 4) && (n > 0 ==> fits(8 * (n - 1)) && fits(x + 4 + 8 * (n - 1)))
}

/// Whether the places of a window's edges can be computed.
pub open spec fn chrome_fits(x: int, y: int, w: int, h: int) -> bool {
    fits(x + w) && fits(x + w - CLOSE_BTN_W) && fits(y + TITLE_BAR_H) && fits(y + h) && fits(y + h - 1)
}

/// Whether the places of the pointer's pixels can be computed.
pub open spec fn pointer_fits(mx: int, my: int) -> bool {
    fits(mx - 1) && fits(mx + 30) && fits(my - 1) && fits(my + 30)
}

#[derive(Clone, Copy)]
pub struct Window {
    pub x: i32,
    pub y: i32,
    pub w: u32,
    pub h: u32,
    pub title: &'static str,
    pub color: Rgb,
}

/// A signed coordinate as an unsigned one: one that is off the screen to the
/// left or the top is far off it to the right or the bottom.
pub open spec fn wide(v: int) -> int {
    if v >= 0 {
        v
    } else {
        v + 0x1_0000_0000_0000_0000
    }
}

fn widen(v: i32) -> (r: u64)
    ensures
        r == wide(v as int),
{
    if v >= 0 {
        v as u64
    } else {
        (v as i128 + 0x1_0000_0000_0000_0000) as u64
    }
}

/// Whether a point lies in a rectangle.
pub open spec fn inside(x: int, y: int, w: int, h: int, mx: int, my: int) -> bool {
    x <= mx < x + w && y <= my < y + h
}

impl Window {
    pub open spec fn has_title_at(self, mx: i32, my: i32) -> bool {
        inside(self.x as int, self.y as int, self.w as int, TITLE_BAR_H as int, mx as int, my as int)
    }

    pub open spec fn has_button_at(self, mx: i32, my: i32) -> bool {
        inside(
            self.x + self.w - CLOSE_BTN_W,
            self.y as int,
            CLOSE_BTN_W as int,
            TITLE_BAR_H as int,
            mx as int,
            my as int,
        )
    }

    pub open spec fn wf(self) -> bool {
        &&& 0 <= self.x && fits(self.x + self.w)
        &&& 0 <= self.y && fits(self.y + self.h) && fits(self.y + TITLE_BAR_H)
        &&& 4 + 8 * self.title@.len() <= self.w
    }

    fn contains_title_bar(&self, mx: i32, my: i32) -> (r: bool)
        requires
            self.wf(),
        ensures
            r == self.has_title_at(mx, my),
    {
        mx >= self.x && mx < self.x + self.w as i32 && my >= self.y && my < self.y + TITLE_BAR_H
    }
}

/// Where a window's close button is: its place and its size.
pub fn close_button_rect(x: i32, y: i32, w: i32) -> (r: (i32, i32, i32, i32))
    requires
        i32::MIN <= x + w <= i32::MAX,
        i32::MIN <= x + w - CLOSE_BTN_W,
    ensures
        r.0 == x + w - CLOSE_BTN_W,
        r.1 == y,
        r.2 == CLOSE_BTN_W,
        r.3 == TITLE_BAR_H,
{
    (x + w - CLOSE_BTN_W, y, CLOSE_BTN_W, TITLE_BAR_H)
}

/// Whether a point is on a window's close button.
pub fn point_in_close_button(x: i32, y: i32, w: i32, mx: i32, my: i32) -> (r: bool)
    requires
        i32::MIN <= x + w <= i32::MAX,
        i32::MIN <= x + w - CLOSE_BTN_W,
        y + TITLE_BAR_H <= i32::MAX,
    ensures
        r == inside(
            x + w - CLOSE_BTN_W,
            y as int,
            CLOSE_BTN_W as int,
            TITLE_BAR_H as int,
            mx as int,
            my as int,
        ),
{
    let (bx, by, bw, bh) = close_button_rect(x, y, w);
    mx >= bx && mx < bx + bw && my >= by && my < by + bh
}

// ---- Drawing ----

/// A picture with the first `n` characters of a title drawn.
pub open spec fn titled(p: Pic, fb: Framebuffer, font: Font, x: int, y: int, title: Seq<char>, n: int) -> Pic
    decreases n,
{
    if n <= 0 {
        p
    } else {
        titled(p, fb, font, x, y, title, n - 1).with_glyph(
            wide(x + 4 + (n - 1) * 8),
            wide(y + 6),
            font.glyphs@[glyph_number(title[n - 1] as u32)]@,
            packed(fb, TITLE_TEXT),
            packed(fb, TITLE_COLOR),
        )
    }
}

/// How far down a window's border goes on its left and its right: not beyond
/// the title bar, below which the window's contents begin.
pub open spec fn border_height(h: int) -> int {
    if h > TITLE_BAR_H {
        TITLE_BAR_H as int
    } else {
        wide(h)
    }
}

/// A picture with a window's title bar, its close button and its border. A
/// window that is no higher than its title bar has a border below it too.
pub open spec fn chromed(
    p: Pic,
    fb: Framebuffer,
    font: Font,
    x: int,
    y: int,
    w: int,
    h: int,
    title: Seq<char>,
    hover: bool,
) -> Pic {
    let bar = p.filled(wide(x), wide(y), wide(w), 20, packed(fb, TITLE_COLOR));
    let named = titled(bar, fb, font, x, y, title, title.len() as int);
    let color = if hover {
        CLOSE_BTN_HOVER_COLOR
    } else {
        CLOSE_BTN_COLOR
    };
    let bx = x + w - 20;
    let button = named.filled(wide(bx), wide(y), 20, 20, packed(fb, color));
    let cross = button.with_glyph(
        wide(bx + 6),
        wide(y + 6),
        font.glyphs@[0x78]@,
        packed(fb, TITLE_TEXT),
        packed(fb, color),
    );
    let edge = packed(fb, BORDER_COLOR);
    let bottom = if y + h - 1 > 0 {
        y + h - 1
    } else {
        0
    };
    let right = if x + w - 1 > 0 {
        x + w - 1
    } else {
        0
    };
    let top = cross.filled(wide(x), wide(y), wide(w), 1, edge);
    let closed = if h > TITLE_BAR_H {
        top
    } else {
        top.filled(wide(x), bottom, wide(w), 1, edge)
    };
    closed.filled(wide(x), wide(y), 1, border_height(h), edge).filled(right, wide(y), 1, border_height(h), edge)
}

/// Whether two pictures agree in a window's contents, below its title bar.
pub open spec fn same_contents(p: Pic, q: Pic, x: int, y: int, w: int, h: int) -> bool {
    forall|px: int, py: int|
        inside(x, y + TITLE_BAR_H, w, h - TITLE_BAR_H, px, py) && 0 <= px < p.width && 0 <= py < p.height
            ==> #[trigger] q.cells[py][px] == p.cells[py][px]
}

proof fn lemma_titled(p: Pic, fb: Framebuffer, font: Font, x: int, y: int, title: Seq<char>, n: int)
    requires
        p.wf(),
        p.height <= 0x7FFF_FFFF,
        fits(y),
    ensures
        ({
            let q = titled(p, fb, font, x, y, title, n);
            &&& q.wf()
            &&& q.width == p.width && q.height == p.height && q.stride == p.stride
            &&& forall|px: int, py: int|
                0 <= px < p.width && 0 <= py < p.height && py >= y + TITLE_BAR_H ==> #[trigger] q.cells[py][px]
                    == p.cells[py][px]
        }),
    decreases n,
{
    if n > 0 {
        lemma_titled(p, fb, font, x, y, title, n - 1);
        let before = titled(p, fb, font, x, y, title, n - 1);
        let q = titled(p, fb, font, x, y, title, n);
        assert forall|px: int, py: int|
            0 <= px < p.width && 0 <= py < p.height && py >= y + TITLE_BAR_H implies #[trigger] q.cells[py][px]
            == p.cells[py][px] by {
            assert(before.cells[py][px] == p.cells[py][px]);
        }
    }
}

proof fn lemma_filled_above(p: Pic, x: int, y: int, w: int, h: int, c: u32, from: int)
    requires
        p.wf(),
        p.height <= 0x7FFF_FFFF,
        y + h <= from || y > 0x7FFF_FFFF,
    ensures
        ({
            let q = p.filled(x, y, w, h, c);
            &&& q.wf()
            &&& q.width == p.width && q.height == p.height && q.stride == p.stride
            &&& forall|px: int, py: int|
                0 <= px < p.width && 0 <= py < p.height && py >= from ==> #[trigger] q.cells[py][px] == p.cells[py][px]
        }),
{
}

/// A window's chrome leaves the window's contents alone.
pub proof fn law_chrome_spares_contents(
    p: Pic,
    fb: Framebuffer,
    font: Font,
    x: int,
    y: int,
    w: int,
    h: int,
    title: Seq<char>,
    hover: bool,
)
    requires
        p.wf(),
        p.height <= 0x7FFF_FFFF,
        fits(x),
        fits(y),
        fits(w),
        fits(h),
    ensures
        same_contents(p, chromed(p, fb, font, x, y, w, h, title, hover), x, y, w, h),
{
    if h > TITLE_BAR_H {
        let from = y + TITLE_BAR_H;
        let bar = p.filled(wide(x), wide(y), wide(w), 20, packed(fb, TITLE_COLOR));
        lemma_filled_above(p, wide(x), wide(y), wide(w), 20, packed(fb, TITLE_COLOR), from);
        lemma_titled(bar, fb, font, x, y, title, title.len() as int);
        let named = titled(bar, fb, font, x, y, title, title.len() as int);
        let color = packed(
            fb,
            if hover {
                CLOSE_BTN_HOVER_COLOR
            } else {
                CLOSE_BTN_COLOR
            },
        );
        let bx = x + w - 20;
        let button = named.filled(wide(bx), wide(y), 20, 20, color);
        lemma_filled_above(named, wide(bx), wide(y), 20, 20, color, from);
        let cross = button.with_glyph(
            wide(bx + 6),
            wide(y + 6),
            font.glyphs@[0x78]@,
            packed(fb, TITLE_TEXT),
            color,
        );
        assert forall|px: int, py: int| 0 <= px < p.width && 0 <= py < p.height && py >= from implies #[trigger]
            cross.cells[py][px] == p.cells[py][px] by {
            assert(button.cells[py][px] == named.cells[py][px]);
            assert(named.cells[py][px] == bar.cells[py][px]);
            assert(bar.cells[py][px] == p.cells[py][px]);
        }
        let edge = packed(fb, BORDER_COLOR);
        let right = if x + w - 1 > 0 {
            x + w - 1
        } else {
            0
        };
        let top = cross.filled(wide(x), wide(y), wide(w), 1, edge);
        lemma_filled_above(cross, wide(x), wide(y), wide(w), 1, edge, from);
        let left = top.filled(wide(x), wide(y), 1, 20, edge);
        lemma_filled_above(top, wide(x), wide(y), 1, 20, edge, from);
        let all = left.filled(right, wide(y), 1, 20, edge);
        lemma_filled_above(left, right, wide(y), 1, 20, edge, from);
        assert(all == chromed(p, fb, font, x, y, w, h, title, hover));
        assert forall|px: int, py: int|
            inside(x, y + TITLE_BAR_H, w, h - TITLE_BAR_H, px, py) && 0 <= px < p.width && 0 <= py < p.height implies
            #[trigger] all.cells[py][px] == p.cells[py][px] by {
            assert(all.cells[py][px] == left.cells[py][px]);
            assert(left.cells[py][px] == top.cells[py][px]);
            assert(top.cells[py][px] == cross.cells[py][px]);
            assert(cross.cells[py][px] == p.cells[py][px]);
        }
    }
}

fn draw_title(canvas: &mut Canvas, x: i32, y: i32, title: &str, font: &Font)
    requires
        old(canvas).wf(),
        font.wf(),
        title_fits(x as int, title@.len() as int),
        fits(y + 6),
    ensures
        final(canvas).wf(),
        final(canvas).fb == old(canvas).fb,
        final(canvas)@ == titled(
            old(canvas)@,
            old(canvas).fb,
            *font,
            x as int,
            y as int,
            title@,
            title@.len() as int,
        ),
{
    let n: usize = title.unicode_len();
    let ghost before = canvas@;
    for i in 0..n
        invariant
            n == title@.len(),
            title_fits(x as int, n as int),
            fits(y + 6),
            font.wf(),
            canvas.wf(),
            canvas.fb == old(canvas).fb,
            before == old(canvas)@,
            canvas@ == titled(before, canvas.fb, *font, x as int, y as int, title@, i as int),
    {
        let c: char = title.get_char(i);
        canvas.draw_char(widen(x + 4 + (i as i32) * 8), widen(y + 6), c, TITLE_TEXT, TITLE_COLOR, font);
    }
}

/// Draws a window's title bar, its close button and its border, and leaves
/// what is below the title bar alone.
pub fn draw_chrome(canvas: &mut Canvas, x: i32, y: i32, w: i32, h: i32, title: &str, close_hover: bool, font: &Font)
    requires
        old(canvas).wf(),
        font.wf(),
        chrome_fits(x as int, y as int, w as int, h as int),
        title_fits(x as int, title@.len() as int),
    ensures
        final(canvas).wf(),
        final(canvas).fb == old(canvas).fb,
        final(canvas)@ == chromed(
            old(canvas)@,
            old(canvas).fb,
            *font,
            x as int,
            y as int,
            w as int,
            h as int,
            title@,
            close_hover,
        ),
        same_contents(old(canvas)@, final(canvas)@, x as int, y as int, w as int, h as int),
{
    let ghost before = canvas@;
    canvas.fill_rect(widen(x), widen(y), widen(w), 20, TITLE_COLOR.0, TITLE_COLOR.1, TITLE_COLOR.2);
    draw_title(canvas, x, y, title, font);
    let (bx, by, bw, bh) = close_button_rect(x, y, w);
    let color = if close_hover {
        CLOSE_BTN_HOVER_COLOR
    } else {
        CLOSE_BTN_COLOR
    };
    canvas.fill_rect(widen(bx), widen(by), widen(bw), widen(bh), color.0, color.1, color.2);
    canvas.draw_glyph(
        widen(bx + (bw - 8) / 2),
        widen(by + (bh - 8) / 2),
        0x78,
        TITLE_TEXT,
        color,
        font,
    );
    let bottom: i32 = if y + h - 1 > 0 {
        y + h - 1
    } else {
        0
    };
    let right: i32 = if x + w - 1 > 0 {
        x + w - 1
    } else {
        0
    };
    let side: u64 = if h > TITLE_BAR_H {
        20
    } else {
        widen(h)
    };
    canvas.fill_rect(widen(x), widen(y), widen(w), 1, BORDER_COLOR.0, BORDER_COLOR.1, BORDER_COLOR.2);
    if h <= TITLE_BAR_H {
        canvas.fill_rect(widen(x), widen(bottom), widen(w), 1, BORDER_COLOR.0, BORDER_COLOR.1, BORDER_COLOR.2);
    }
    canvas.fill_rect(widen(x), widen(y), 1, side, BORDER_COLOR.0, BORDER_COLOR.1, BORDER_COLOR.2);
    canvas.fill_rect(widen(right), widen(y), 1, side, BORDER_COLOR.0, BORDER_COLOR.1, BORDER_COLOR.2);
    proof {
        assert(before.wf());
        law_chrome_spares_contents(
            before,
            canvas.fb,
            *font,
            x as int,
            y as int,
            w as int,
            h as int,
            title@,
            close_hover,
        );
    }
}

/// A picture with the first `n` pixels of the pointer mixed in.
pub open spec fn pointed(p: Pic, fb: Framebuffer, arrow: Arrow, mx: int, my: int, n: int) -> Pic
    decreases n,
{
    if n <= 0 {
        p
    } else {
        let q = pointed(p, fb, arrow, mx, my, n - 1);
        let (r, g, b, a) = arrow.at((n - 1) % 32, (n - 1) / 32);
        let x = mx - 1 + (n - 1) % 32;
        let y = my - 1 + (n - 1) / 32;
        if a != 0 && x >= 0 && y >= 0 {
            q.blended(fb, x, y, (r, g, b), a)
        } else {
            q
        }
    }
}

/// Draws the pointer with its tip at `mx`, `my`.
pub fn draw_cursor(canvas: &mut Canvas, mx: i32, my: i32, arrow: &Arrow)
    requires
        old(canvas).wf(),
        arrow.wf(),
        pointer_fits(mx as int, my as int),
    ensures
        final(canvas).wf(),
        final(canvas).fb == old(canvas).fb,
        final(canvas)@ == pointed(old(canvas)@, old(canvas).fb, *arrow, mx as int, my as int, 1024),
{
    let left: i32 = mx - HOTSPOT_X;
    let top: i32 = my - HOTSPOT_Y;
    let ghost before = canvas@;
    for i in 0..1024u32
        invariant
            arrow.wf(),
            pointer_fits(mx as int, my as int),
            left == mx - 1,
            top == my - 1,
            canvas.wf(),
            canvas.fb == old(canvas).fb,
            before == old(canvas)@,
            canvas@ == pointed(before, canvas.fb, *arrow, mx as int, my as int, i as int),
    {
        let cx: u32 = i % 32;
        let cy: u32 = i / 32;
        if let Some((r, g, b, a)) = pixel(arrow, cx, cy) {
            let px: i32 = left + cx as i32;
            let py: i32 = top + cy as i32;
            if a != 0 && px >= 0 && py >= 0 {
                canvas.blend_pixel(px as u64, py as u64, r, g, b, a);
            }
        }
    }
}

// ---- The desktop ----

/// What to do after the window manager has looked at its input.
#[derive(Clone, Copy, PartialEq, Eq, Structural, Debug)]
pub enum Step {
    Quit,
    Redraw,
    Idle,
}

pub struct Desktop {
    pub windows: Vec<Window>,
    pub dragging: Option<(usize, i32, i32)>,
    pub prev_left_down: bool,
    pub last_drawn: Option<(i32, i32, u8)>,
    pub screen_w: i32,
    pub screen_h: i32,
    pub background: Vec<u32>,
}

/// The windows, from the lowest to the topmost, which one is being dragged
/// and by which point, and whether the button was down before.
pub ghost struct DesktopV {
    pub windows: Seq<Window>,
    pub dragging: Option<(usize, i32, i32)>,
    pub prev_left_down: bool,
    pub screen_w: int,
    pub screen_h: int,
}

/// The topmost of the first `n` windows with its close button at a point.
pub open spec fn button_hit(ws: Seq<Window>, n: int, mx: i32, my: i32) -> Option<int>
    decreases n,
{
    if n <= 0 {
        None
    } else if ws[n - 1].has_button_at(mx, my) {
        Some(n - 1)
    } else {
        button_hit(ws, n - 1, mx, my)
    }
}

/// The topmost of the first `n` windows with its title bar at a point.
pub open spec fn title_hit(ws: Seq<Window>, n: int, mx: i32, my: i32) -> Option<int>
    decreases n,
{
    if n <= 0 {
        None
    } else if ws[n - 1].has_title_at(mx, my) {
        Some(n - 1)
    } else {
        title_hit(ws, n - 1, mx, my)
    }
}

impl DesktopV {
    /// The desktop after the button has been pressed: a window whose close
    /// button was hit is gone, one whose title bar was hit comes to the top
    /// and is dragged from there.
    pub open spec fn pressed(self, mx: i32, my: i32) -> DesktopV {
        let n = self.windows.len() as int;
        match (button_hit(self.windows, n, mx, my), title_hit(self.windows, n, mx, my)) {
            (Some(i), _) => DesktopV { windows: self.windows.remove(i), ..self },
            (None, Some(i)) => {
                let w = self.windows[i];
                DesktopV {
                    windows: self.windows.remove(i).push(w),
                    dragging: Some(((n - 1) as usize, (mx - w.x) as i32, (my - w.y) as i32)),
                    ..self
                }
            },
            (None, None) => self,
        }
    }

    /// The desktop with the window that is being dragged moved along, as far
    /// as the screen goes.
    pub open spec fn dragged(self, mx: i32, my: i32) -> DesktopV {
        match self.dragging {
            Some((i, ox, oy)) if i < self.windows.len() => {
                let w = self.windows[i as int];
                DesktopV {
                    windows: self.windows.update(
                        i as int,
                        Window {
                            x: clamped(mx - ox, 0, self.screen_w - w.w) as i32,
                            y: clamped(my - oy, 0, self.screen_h - TITLE_BAR_H) as i32,
                            ..w
                        },
                    ),
                    ..self
                }
            },
            _ => self,
        }
    }

    /// The desktop once it is known which window is being dragged, if any.
    pub open spec fn grabbed(self, mx: i32, my: i32, left_down: bool) -> DesktopV {
        if left_down && !self.prev_left_down {
            self.pressed(mx, my)
        } else if !left_down {
            DesktopV { dragging: None, ..self }
        } else {
            self
        }
    }

    /// The desktop after a look at the mouse.
    pub open spec fn moved(self, mx: i32, my: i32, left_down: bool) -> DesktopV {
        DesktopV { prev_left_down: left_down, ..self.grabbed(mx, my, left_down).dragged(mx, my) }
    }

    /// The window that is being dragged, and the point that it is held by.
    pub open spec fn held(self) -> Option<(Window, i32, i32)> {
        match self.dragging {
            Some((i, ox, oy)) if i < self.windows.len() => Some((self.windows[i as int], ox, oy)),
            _ => None,
        }
    }

    /// Whether the window that is being dragged can go along with the mouse:
    /// it is no wider than the screen, its title bar no higher, and where it
    /// goes can be computed.
    pub open spec fn can_drag(self, mx: i32, my: i32) -> bool {
        self.held() matches Some((w, ox, oy)) ==> {
            &&& w.w <= self.screen_w
            &&& TITLE_BAR_H <= self.screen_h
            &&& fits(self.screen_h - TITLE_BAR_H + w.h)
            &&& fits(mx - ox)
            &&& fits(my - oy)
        }
    }
}

impl Desktop {
    pub open spec fn view(self) -> DesktopV {
        DesktopV {
            windows: self.windows@,
            dragging: self.dragging,
            prev_left_down: self.prev_left_down,
            screen_w: self.screen_w as int,
            screen_h: self.screen_h as int,
        }
    }

    /// What every window keeps to, and the screen's size.
    pub open spec fn wf(self) -> bool {
        &&& 0 <= self.screen_w
        &&& 0 <= self.screen_h
        &&& self.windows@.len() <= 2
        &&& forall|i: int| 0 <= i < self.windows@.len() ==> (#[trigger] self.windows@[i]).wf()
    }

    /// The two windows that the desktop starts with.
    pub fn new(screen_w: u64, screen_h: u64, background: Vec<u32>) -> (r: Desktop)
        requires
            screen_w <= i32::MAX,
            screen_h <= i32::MAX,
        ensures
            r.wf(),
            r.windows@ == seq![
                Window { x: 80, y: 80, w: 260, h: 160, title: "konjac-term", color: (30, 90, 130) },
                Window { x: 260, y: 160, w: 220, h: 130, title: "about", color: (110, 60, 130) },
            ],
            r.dragging is None,
            !r.prev_left_down,
            r.last_drawn is None,
            r.screen_w == screen_w,
            r.screen_h == screen_h,
            r.background == background,
    {
        let mut windows: Vec<Window> = Vec::new();
        windows.push(Window { x: 80, y: 80, w: 260, h: 160, title: "konjac-term", color: (30, 90, 130) });
        windows.push(Window { x: 260, y: 160, w: 220, h: 130, title: "about", color: (110, 60, 130) });
        proof {
            reveal_strlit("konjac-term");
            reveal_strlit("about");
        }
        assert(windows@ =~= seq![
            Window { x: 80, y: 80, w: 260, h: 160, title: "konjac-term", color: (30, 90, 130) },
            Window { x: 260, y: 160, w: 220, h: 130, title: "about", color: (110, 60, 130) },
        ]);
        Desktop {
            windows,
            dragging: None,
            prev_left_down: false,
            last_drawn: None,
            screen_w: screen_w as i32,
            screen_h: screen_h as i32,
            background,
        }
    }

    fn find_button(&self, mx: i32, my: i32) -> (r: Option<usize>)
        requires
            self.wf(),
        ensures
            match button_hit(self.windows@, self.windows@.len() as int, mx, my) {
                Some(i) => r matches Some(x) && x == i && 0 <= i < self.windows@.len(),
                None => r is None,
            },
    {
        let mut n: usize = self.windows.len();
        while n > 0
            invariant
                self.wf(),
                n <= self.windows@.len(),
                button_hit(self.windows@, self.windows@.len() as int, mx, my) == button_hit(
                    self.windows@,
                    n as int,
                    mx,
                    my,
                ),
            decreases n,
        {
            n -= 1;
            let w = self.windows[n];
            assert(self.windows@[n as int].wf());
            if point_in_close_button(w.x, w.y, w.w as i32, mx, my) {
                return Some(n);
            }
        }
        None
    }

    fn find_title(&self, mx: i32, my: i32) -> (r: Option<usize>)
        requires
            self.wf(),
        ensures
            match title_hit(self.windows@, self.windows@.len() as int, mx, my) {
                Some(i) => r matches Some(x) && x == i && 0 <= i < self.windows@.len(),
                None => r is None,
            },
    {
        let mut n: usize = self.windows.len();
        while n > 0
            invariant
                self.wf(),
                n <= self.windows@.len(),
                title_hit(self.windows@, self.windows@.len() as int, mx, my) == title_hit(
                    self.windows@,
                    n as int,
                    mx,
                    my,
                ),
            decreases n,
        {
            n -= 1;
            let w = self.windows[n];
            assert(self.windows@[n as int].wf());
            if w.contains_title_bar(mx, my) {
                return Some(n);
            }
        }
        None
    }

    fn press(&mut self, mx: i32, my: i32)
        requires
            old(self).wf(),
        ensures
            final(self).wf(),
            final(self)@ == old(self)@.pressed(mx, my),
            final(self).last_drawn == old(self).last_drawn,
            final(self).background == old(self).background,
    {
        let ghost before = self@;
        let ghost ws = self.windows@;
        if let Some(i) = self.find_button(mx, my) {
            let _ = self.windows.remove(i);
            assert forall|k: int| 0 <= k < self.windows@.len() implies (#[trigger] self.windows@[k]).wf() by {
                let j = if k < i {
                    k
                } else {
                    k + 1
                };
                assert(self.windows@[k] == ws[j]);
            }
        } else if let Some(i) = self.find_title(mx, my) {
            proof {
                lemma_title_hit(ws, ws.len() as int, mx, my);
                assert(ws[i as int].wf());
            }
            let w = self.windows.remove(i);
            self.windows.push(w);
            assert forall|k: int| 0 <= k < self.windows@.len() implies (#[trigger] self.windows@[k]).wf() by {
                let j = if k == ws.len() - 1 {
                    i as int
                } else if k < i {
                    k
                } else {
                    k + 1
                };
                assert(self.windows@[k] == ws[j]);
            }
            self.dragging = Some((self.windows.len() - 1, mx - w.x, my - w.y));
        }
    }

    fn drag(&mut self, mx: i32, my: i32)
        requires
            old(self).wf(),
            old(self)@.can_drag(mx, my),
        ensures
            final(self).wf(),
            final(self)@ == old(self)@.dragged(mx, my),
            final(self).last_drawn == old(self).last_drawn,
            final(self).background == old(self).background,
    {
        if let Some((i, ox, oy)) = self.dragging {
            if i < self.windows.len() {
                let ghost ws = self.windows@;
                let mut w = self.windows[i];
                assert(ws[i as int].wf());
                w.x = clamp_to(mx - ox, self.screen_w - w.w as i32);
                w.y = clamp_to(my - oy, self.screen_h - TITLE_BAR_H);
                self.windows[i] = w;
                assert forall|k: int| 0 <= k < self.windows@.len() implies (#[trigger] self.windows@[k]).wf() by {
                    if k != i {
                        assert(self.windows@[k] == ws[k]);
                    }
                }
            }
        }
    }

    /// The window that is dragged once the mouse has been looked at.
    fn grab(&self, mx: i32, my: i32, left_down: bool) -> (r: Option<(Window, i32, i32)>)
        requires
            self.wf(),
        ensures
            r == self@.grabbed(mx, my, left_down).held(),
    {
        if !left_down {
            return None;
        }
        if !self.prev_left_down {
            if let Some(gone) = self.find_button(mx, my) {
                return match self.dragging {
                    Some((i, ox, oy)) if i < self.windows.len() - 1 => {
                        let k: usize = if i < gone {
                            i
                        } else {
                            i + 1
                        };
                        Some((self.windows[k], ox, oy))
                    },
                    _ => None,
                };
            }
            if let Some(i) = self.find_title(mx, my) {
                proof {
                    lemma_title_hit(self.windows@, self.windows@.len() as int, mx, my);
                    assert(self.windows@[i as int].wf());
                }
                let w = self.windows[i];
                return Some((w, mx - w.x, my - w.y));
            }
        }
        match self.dragging {
            Some((i, ox, oy)) if i < self.windows.len() => Some((self.windows[i], ox, oy)),
            _ => None,
        }
    }

    /// Whether a window that is being dragged can go along with the mouse.
    pub fn can_step(&self, mx: i32, my: i32, buttons: u8) -> (r: bool)
        requires
            self.wf(),
        ensures
            r == self@.grabbed(mx, my, buttons & LEFT_BUTTON != 0).can_drag(mx, my),
    {
        match self.grab(mx, my, buttons & LEFT_BUTTON != 0) {
            None => true,
            Some((w, ox, oy)) => {
                let right: i64 = mx as i64 - ox as i64;
                let down: i64 = my as i64 - oy as i64;
                let lowest: i64 = self.screen_h as i64 - TITLE_BAR_H as i64 + w.h as i64;
                w.w as i64 <= self.screen_w as i64 && TITLE_BAR_H <= self.screen_h && lowest <= i32::MAX as i64
                    && i32::MIN as i64 <= right && right <= i32::MAX as i64 && i32::MIN as i64 <= down && down
                    <= i32::MAX as i64
            },
        }
    }

    /// Looks at the keyboard and the mouse. Escape ends the window manager;
    /// the picture is drawn anew when the mouse has changed or a window is
    /// being dragged.
    pub fn step(&mut self, key: Option<u8>, mx: i32, my: i32, buttons: u8) -> (r: Step)
        requires
            old(self).wf(),
            key != Some(0x1Bu8) ==> old(self)@.grabbed(mx, my, buttons & LEFT_BUTTON != 0).can_drag(mx, my),
        ensures
            final(self).wf(),
            final(self).background == old(self).background,
            if key == Some(0x1Bu8) {
                r == Step::Quit && *final(self) == *old(self)
            } else {
                &&& final(self)@ == old(self)@.moved(mx, my, buttons & LEFT_BUTTON != 0)
                &&& r == if old(self).last_drawn != Some((mx, my, buttons)) || final(self).dragging is Some {
                    Step::Redraw
                } else {
                    Step::Idle
                }
                &&& final(self).last_drawn == Some((mx, my, buttons))
            },
    {
        if let Some(byte) = key {
            if byte == 0x1B {
                return Step::Quit;
            }
        }
        let left_down: bool = buttons & LEFT_BUTTON != 0;
        if left_down && !self.prev_left_down {
            self.press(mx, my);
        } else if !left_down {
            self.dragging = None;
        }
        self.drag(mx, my);
        self.prev_left_down = left_down;
        let same: bool = match self.last_drawn {
            Some((x, y, b)) => x == mx && y == my && b == buttons,
            None => false,
        };
        self.last_drawn = Some((mx, my, buttons));
        if !same || self.dragging.is_some() {
            Step::Redraw
        } else {
            Step::Idle
        }
    }

    /// Draws the background, the windows and the pointer.
    pub fn draw(&self, canvas: &mut Canvas, mx: i32, my: i32, font: &Font, arrow: &Arrow)
        requires
            self.wf(),
            old(canvas).wf(),
            font.wf(),
            arrow.wf(),
            pointer_fits(mx as int, my as int),
        ensures
            final(canvas).wf(),
            final(canvas).fb == old(canvas).fb,
            final(canvas)@ == pointed(
                windows_drawn(
                    pic_of(old(canvas).fb, overlaid(old(canvas).memory@, self.background@)),
                    old(canvas).fb,
                    *font,
                    self.windows@,
                    mx,
                    my,
                    self.windows@.len() as int,
                ),
                old(canvas).fb,
                *arrow,
                mx as int,
                my as int,
                1024,
            ),
    {
        canvas.blit(&self.background);
        let ghost blank = canvas@;
        let n: usize = self.windows.len();
        for i in 0..n
            invariant
                n == self.windows@.len(),
                self.wf(),
                font.wf(),
                canvas.wf(),
                canvas.fb == old(canvas).fb,
                canvas@ == windows_drawn(blank, canvas.fb, *font, self.windows@, mx, my, i as int),
        {
            let w = self.windows[i];
            assert(self.windows@[i as int].wf());
            let body: u64 = if w.h as i32 > TITLE_BAR_H {
                (w.h as i32 - TITLE_BAR_H) as u64
            } else {
                0
            };
            canvas.fill_rect(
                widen(w.x),
                widen(w.y + TITLE_BAR_H),
                w.w as u64,
                body,
                w.color.0,
                w.color.1,
                w.color.2,
            );
            let hover: bool = point_in_close_button(w.x, w.y, w.w as i32, mx, my);
            draw_chrome(canvas, w.x, w.y, w.w as i32, w.h as i32, w.title, hover, font);
        }
        draw_cursor(canvas, mx, my, arrow);
    }
}

/// A picture with the first `n` windows drawn, one over the other.
pub open spec fn windows_drawn(p: Pic, fb: Framebuffer, font: Font, ws: Seq<Window>, mx: i32, my: i32, n: int) -> Pic
    decreases n,
{
    if n <= 0 {
        p
    } else {
        let w = ws[n - 1];
        let body = if w.h > TITLE_BAR_H {
            w.h - TITLE_BAR_H
        } else {
            0
        };
        chromed(
            windows_drawn(p, fb, font, ws, mx, my, n - 1).filled(
                wide(w.x as int),
                wide(w.y + TITLE_BAR_H),
                w.w as int,
                body,
                packed(fb, w.color),
            ),
            fb,
            font,
            w.x as int,
            w.y as int,
            w.w as int,
            w.h as int,
            w.title@,
            w.has_button_at(mx, my),
        )
    }
}

fn clamp_to(v: i32, hi: i32) -> (r: i32)
    requires
        0 <= hi,
    ensures
        r == clamped(v as int, 0, hi as int),
{
    if v < 0 {
        0
    } else if v > hi {
        hi
    } else {
        v
    }
}

/// A window that is dragged never leaves the screen to any side: its title
/// bar stays in reach.
pub proof fn law_dragged_windows_stay(d: DesktopV, mx: i32, my: i32)
    requires
        d.dragging is Some,
        (d.dragging->0).0 < d.windows.len(),
        0 <= d.screen_w <= i32::MAX,
        TITLE_BAR_H <= d.screen_h <= i32::MAX,
        d.windows[(d.dragging->0).0 as int].w <= d.screen_w,
    ensures
        ({
            let w = d.dragged(mx, my).windows[(d.dragging->0).0 as int];
            0 <= w.x && w.x + w.w <= d.screen_w && 0 <= w.y && w.y + TITLE_BAR_H <= d.screen_h
        }),
{
}

/// A press that hits no close button closes no window.
pub proof fn law_only_buttons_close(d: DesktopV, mx: i32, my: i32)
    requires
        button_hit(d.windows, d.windows.len() as int, mx, my) is None,
    ensures
        d.pressed(mx, my).windows.len() == d.windows.len(),
{
    lemma_title_hit(d.windows, d.windows.len() as int, mx, my);
}

proof fn lemma_title_hit(ws: Seq<Window>, n: int, mx: i32, my: i32)
    requires
        n <= ws.len(),
    ensures
        title_hit(ws, n, mx, my) matches Some(i) ==> 0 <= i < n && ws[i].has_title_at(mx, my),
    decreases n,
{
    if n > 0 {
        lemma_title_hit(ws, n - 1, mx, my);
    }
}

} // verus!
