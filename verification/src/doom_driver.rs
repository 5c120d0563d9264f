//! The window that a game draws in: where it is, how a frame gets into it, and
//! when it is closed.
use crate::cursor::Arrow;
use crate::framebuffer::{packed, Canvas, Font, Pic};
use crate::limine::Framebuffer;
use crate::mouse::LEFT_BUTTON;
use crate::timer::HZ;
use crate::wm::{
    chrome_fits, chromed, draw_chrome, draw_cursor, inside, point_in_close_button, pointed, pointer_fits, title_fits,
    CLOSE_BTN_W, TITLE_BAR_H,
};
use vstd::prelude::*;
use vstd::string::*;

verus! {

pub const DOOM_W: i32 = 640;

pub const DOOM_H: i32 = 400;

pub struct DoomWindow {
    pub x: i32,
    pub y: i32,
    pub w: i32,
    pub h: i32,
    pub background: Vec<u32>,
    pub prev_left_down: bool,
}

impl DoomWindow {
    pub open spec fn wf(self) -> bool {
        &&& 0 <= self.x && 0 <= self.y && 0 <= self.w && 0 <= self.h
        &&& chrome_fits(self.x as int, self.y as int, self.w as int, self.h as int)
        &&& title_fits(self.x as int, 4)
    }
}

/// The smaller of two numbers.
pub open spec fn least(a: int, b: int) -> int {
    if a < b {
        a
    } else {
        b
    }
}

/// Where a window of the game goes: in the middle, and no larger than the
/// screen. Its place and its size.
pub open spec fn placed(sw: int, sh: int) -> (int, int, int, int) {
    let w = least(DOOM_W as int, sw);
    let h = least(DOOM_H + TITLE_BAR_H, sh);
    ((sw - w) / 2, (sh - h) / 2, w, h)
}

/// The height of what is below the title bar.
pub open spec fn client_height(h: int) -> int {
    if h > TITLE_BAR_H {
        h - TITLE_BAR_H
    } else {
        0
    }
}

/// Opens the window: keeps what was on the screen, and draws an empty window.
pub fn doom_window_init(canvas: &mut Canvas, font: &Font) -> (r: DoomWindow)
    requires
        old(canvas).wf(),
        font.wf(),
    ensures
        final(canvas).wf(),
        final(canvas).fb == old(canvas).fb,
        r.wf(),
        r.background@ == old(canvas).memory@,
        !r.prev_left_down,
        ({
            let (x, y, w, h) = placed(old(canvas).fb.width as int, old(canvas).fb.height as int);
            &&& r.x == x && r.y == y && r.w == w && r.h == h
            &&& final(canvas)@ == chromed(
                old(canvas)@,
                old(canvas).fb,
                *font,
                x,
                y,
                w,
                h,
                "DOOM"@,
                false,
            ).filled(x, y + TITLE_BAR_H, w, client_height(h), packed(old(canvas).fb, (0, 0, 0)))
        }),
{
    let background = canvas.snapshot();
    let sw: i32 = canvas.width() as i32;
    let sh: i32 = canvas.height() as i32;
    let w: i32 = if DOOM_W < sw {
        DOOM_W
    } else {
        sw
    };
    let h: i32 = if DOOM_H + TITLE_BAR_H < sh {
        DOOM_H + TITLE_BAR_H
    } else {
        sh
    };
    let x: i32 = (sw - w) / 2;
    let y: i32 = (sh - h) / 2;
    proof {
        reveal_strlit("DOOM");
    }
    draw_chrome(canvas, x, y, w, h, "DOOM", false, font);
    let client: u64 = if h > TITLE_BAR_H {
        (h - TITLE_BAR_H) as u64
    } else {
        0
    };
    canvas.fill_rect(x as u64, (y + TITLE_BAR_H) as u64, w as u64, client, 0, 0, 0);
    DoomWindow { x, y, w, h, background, prev_left_down: false }
}

/// The colour of a pixel of a frame: red, green and blue from the third lowest
/// byte down.
pub open spec fn frame_colour(p: u32) -> (u8, u8, u8) {
    ((p / 0x1_0000 % 256) as u8, (p / 0x100 % 256) as u8, (p % 256) as u8)
}

/// Which part of the screen a frame goes to: its place and its size. Without
/// a window it goes to the middle.
pub open spec fn target_area(window: Option<DoomWindow>, fb: Framebuffer, w: int, h: int) -> (int, int, int, int) {
    match window {
        Some(win) => (
            win.x as int,
            win.y + TITLE_BAR_H,
            least(win.w as int, w),
            least(client_height(win.h as int), h),
        ),
        None => (
            if fb.width > w {
                (fb.width - w) / 2
            } else {
                0
            },
            if fb.height > h {
                (fb.height - h) / 2
            } else {
                0
            },
            least(w, fb.width as int),
            least(h, fb.height as int),
        ),
    }
}

/// The picture with a frame drawn on it.
pub open spec fn framed(p: Pic, fb: Framebuffer, buf: Seq<u32>, w: int, x0: int, y0: int, dw: int, dh: int) -> Pic {
    p.painted(
        |x: int, y: int|
            if x0 <= x < x0 + dw && x < p.width && y0 <= y < y0 + dh {
                Some(packed(fb, frame_colour(buf[(y - y0) * w + (x - x0)])))
            } else {
                None
            },
    )
}

#[verifier::spinoff_prover]
fn draw_frame(canvas: &mut Canvas, buf: &[u32], w: u64, h: u64, x0: u64, y0: u64, dw: u64, dh: u64)
    requires
        old(canvas).wf(),
        buf@.len() >= w * h,
        dw <= w <= 0xFFFF_FFFF,
        dh <= h <= 0xFFFF_FFFF,
        x0 <= 0xFFFF_FFFF,
        y0 <= 0xFFFF_FFFF,
    ensures
        final(canvas).wf(),
        final(canvas).fb == old(canvas).fb,
        final(canvas)@ == framed(
            old(canvas)@,
            old(canvas).fb,
            buf@,
            w as int,
            x0 as int,
            y0 as int,
            dw as int,
            dh as int,
        ),
{
    let ghost before = canvas@;
    let ghost fb = canvas.fb;
    assert(buf.len() == buf@.len());
    for y in 0..dh
        invariant
            canvas.wf(),
            canvas.fb == fb,
            fb == old(canvas).fb,
            before == old(canvas)@,
            buf@.len() >= w * h,
            buf@.len() <= usize::MAX,
            dw <= w <= 0xFFFF_FFFF,
            dh <= h <= 0xFFFF_FFFF,
            x0 <= 0xFFFF_FFFF,
            y0 <= 0xFFFF_FFFF,
            canvas@.wf(),
            canvas@ == (Pic { cells: canvas@.cells, ..before }),
            forall|v: int, u: int|
                0 <= v < before.height && 0 <= u < before.stride ==> #[trigger] canvas@.cells[v][u] == if y0 <= v < y0
                    + y && x0 <= u < x0 + dw && u < before.width {
                    packed(fb, frame_colour(buf@[(v - y0) * w + (u - x0)]))
                } else {
                    before.cells[v][u]
                },
    {
        for x in 0..dw
            invariant
                canvas.wf(),
                canvas.fb == fb,
                before == old(canvas)@,
                buf@.len() >= w * h,
                buf@.len() <= usize::MAX,
                dw <= w <= 0xFFFF_FFFF,
                y < dh <= h <= 0xFFFF_FFFF,
                x0 <= 0xFFFF_FFFF,
                y0 <= 0xFFFF_FFFF,
                canvas@.wf(),
                canvas@ == (Pic { cells: canvas@.cells, ..before }),
                before.width == fb.width,
                before.height == fb.height,
                forall|v: int, u: int|
                    0 <= v < before.height && 0 <= u < before.stride ==> #[trigger] canvas@.cells[v][u] == if u
                        < before.width && ((y0 <= v < y0 + y && x0 <= u < x0 + dw) || (v == y0 + y && x0 <= u < x0
                        + x)) {
                        packed(fb, frame_colour(buf@[(v - y0) * w + (u - x0)]))
                    } else {
                        before.cells[v][u]
                    },
        {
            proof {
                assert(y * w + x < h * w) by (nonlinear_arith)
                    requires
                        y < h,
                        x < w,
                ;
                assert(0 <= y * w <= 0xFFFF_FFFF * 0xFFFF_FFFF) by (nonlinear_arith)
                    requires
                        0 <= y <= 0xFFFF_FFFF,
                        0 <= w <= 0xFFFF_FFFF,
                ;
                assert(h * w == w * h) by (nonlinear_arith);
            }
            let p: u32 = buf[(y * w + x) as usize];
            let red: u8 = (p / 0x1_0000 % 256) as u8;
            let green: u8 = (p / 0x100 % 256) as u8;
            let blue: u8 = (p % 256) as u8;
            canvas.put_pixel(x0 + x, y0 + y, red, green, blue);
        }
    }
    proof {
        let after = framed(before, fb, buf@, w as int, x0 as int, y0 as int, dw as int, dh as int);
        crate::framebuffer::lemma_same(canvas@, after);
    }
}

/// Whether the pointer is on the close button of the window.
pub open spec fn on_close(win: DoomWindow, mx: i32, my: i32) -> bool {
    inside(
        win.x + win.w - CLOSE_BTN_W,
        win.y as int,
        CLOSE_BTN_W as int,
        TITLE_BAR_H as int,
        mx as int,
        my as int,
    )
}

/// What the screen shows after a frame: the frame, and with a window its
/// title bar and the pointer.
pub open spec fn shown(
    window: Option<DoomWindow>,
    before: Canvas,
    buf: Seq<u32>,
    w: int,
    h: int,
    mx: i32,
    my: i32,
    font: Font,
    arrow: Arrow,
) -> Pic {
    let fb = before.fb;
    let (x0, y0, dw, dh) = target_area(window, fb, w, h);
    let frame = framed(before@, fb, buf, w, x0, y0, dw, dh);
    match window {
        None => frame,
        Some(win) => pointed(
            chromed(
                frame,
                fb,
                font,
                win.x as int,
                win.y as int,
                win.w as int,
                win.h as int,
                "DOOM"@,
                on_close(win, mx, my),
            ),
            fb,
            arrow,
            mx as int,
            my as int,
            1024,
        ),
    }
}

/// Draws a frame. Returns whether the window was closed, by a fresh click on
/// its button; what was on the screen before the window is then back.
pub fn konjac_doom_blit(
    window: &mut Option<DoomWindow>,
    canvas: &mut Canvas,
    buf: &[u32],
    width: u32,
    height: u32,
    mx: i32,
    my: i32,
    buttons: u8,
    font: &Font,
    arrow: &Arrow,
) -> (r: bool)
    requires
        old(canvas).wf(),
        *old(window) matches Some(win) ==> win.wf() && win.background@.len() == old(canvas).memory@.len(),
        buf@.len() >= width * height,
        font.wf(),
        arrow.wf(),
        pointer_fits(mx as int, my as int),
    ensures
        final(canvas).wf(),
        final(canvas).fb == old(canvas).fb,
        !r ==> final(canvas)@ == shown(
            *old(window),
            *old(canvas),
            buf@,
            width as int,
            height as int,
            mx,
            my,
            *font,
            *arrow,
        ),
        r ==> final(canvas).memory@ == (old(window)->0).background@,
        match *old(window) {
            None => !r && *final(window) is None,
            Some(win) => {
                let down = buttons & LEFT_BUTTON != 0;
                &&& r == (down && !win.prev_left_down && on_close(win, mx, my))
                &&& *final(window) == Some(DoomWindow { prev_left_down: down, ..win })
            },
        },
{
    let w: u64 = width as u64;
    let h: u64 = height as u64;
    let cw: u64 = canvas.width();
    let ch: u64 = canvas.height();
    let (x0, y0, dw, dh): (u64, u64, u64, u64) = match window {
        Some(win) => {
            let client: u64 = if win.h > TITLE_BAR_H {
                (win.h - TITLE_BAR_H) as u64
            } else {
                0
            };
            (
                win.x as u64,
                (win.y + TITLE_BAR_H) as u64,
                if (win.w as u64) < w {
                    win.w as u64
                } else {
                    w
                },
                if client < h {
                    client
                } else {
                    h
                },
            )
        },
        None => (
            if cw > w {
                (cw - w) / 2
            } else {
                0
            },
            if ch > h {
                (ch - h) / 2
            } else {
                0
            },
            if w < cw {
                w
            } else {
                cw
            },
            if h < ch {
                h
            } else {
                ch
            },
        ),
    };
    draw_frame(canvas, buf, w, h, x0, y0, dw, dh);
    match window {
        None => false,
        Some(win) => {
            let down: bool = buttons & LEFT_BUTTON != 0;
            let hover: bool = point_in_close_button(win.x, win.y, win.w, mx, my);
            proof {
                reveal_strlit("DOOM");
            }
            draw_chrome(canvas, win.x, win.y, win.w, win.h, "DOOM", hover, font);
            draw_cursor(canvas, mx, my, arrow);
            let fresh: bool = down && !win.prev_left_down;
            win.prev_left_down = down;
            if fresh && hover {
                canvas.blit(&win.background);
                assert(canvas.memory@ =~= win.background@);
                true
            } else {
                false
            }
        },
    }
}

/// The game's clock, in milliseconds. It wraps around.
pub open spec fn milliseconds(ticks: u64) -> u32 {
    (ticks.wrapping_mul(1000) / HZ as u64 % 0x1_0000_0000) as u32
}

pub fn konjac_doom_ticks_ms(ticks: u64) -> (r: u32)
    ensures
        r == milliseconds(ticks),
{
    (ticks.wrapping_mul(1000) / HZ as u64 % 0x1_0000_0000) as u32
}

/// Whether a sleep of `ms` milliseconds that began at `start` is over.
pub fn sleep_over(start: u32, ticks: u64, ms: u32) -> (r: bool)
    ensures
        r == (milliseconds(ticks).wrapping_sub(start) >= ms),
{
    konjac_doom_ticks_ms(ticks).wrapping_sub(start) >= ms
}

} // verus!
