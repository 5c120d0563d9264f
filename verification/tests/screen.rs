use konjac::console::Console;
use konjac::cursor::{pixel, Arrow};
use konjac::doom_driver::{doom_window_init, konjac_doom_blit, konjac_doom_ticks_ms, sleep_over};
use konjac::framebuffer::{Canvas, Font};
use konjac::limine::Framebuffer;
use konjac::mouse::{buttons, enabled_config, left_button_down, position, Mouse};
use konjac::wm::{close_button_rect, draw_chrome, draw_cursor, point_in_close_button, Desktop, Step};

fn canvas(width: u64, height: u64) -> Canvas {
    let fb = Framebuffer {
        width,
        height,
        pitch: (width + 2) * 4,
        bpp: 32,
        red_mask_shift: 16,
        green_mask_shift: 8,
        blue_mask_shift: 0,
    };
    Canvas::new(fb, vec![0u32; ((width + 2) * height) as usize])
}

fn at(c: &Canvas, x: u64, y: u64) -> u32 {
    c.memory[(y * (c.width() + 2) + x) as usize]
}

/// Glyph `n` has the bits of `n` in every row.
fn font() -> Font {
    Font { glyphs: (0..128u8).map(|n| [n; 8]).collect() }
}

fn arrow() -> Arrow {
    let mut rgba = vec![0u8; 4096];
    rgba[..4].copy_from_slice(&[10, 20, 30, 255]);
    rgba[4..8].copy_from_slice(&[255, 255, 255, 51]);
    Arrow { rgba }
}

#[test]
fn pixels_are_packed_by_the_masks() {
    let mut c = canvas(10, 10);
    c.put_pixel(3, 4, 0x12, 0x34, 0x56);
    assert_eq!(at(&c, 3, 4), 0x12_3456);
    let before = c.snapshot();
    c.put_pixel(10, 4, 1, 1, 1);
    c.put_pixel(3, 10, 1, 1, 1);
    assert_eq!(c.memory, before);
}

#[test]
fn rectangles_are_cut_at_the_edge() {
    let mut c = canvas(10, 10);
    c.fill_rect(8, 8, 100, u64::MAX, 0, 0, 1);
    assert_eq!((at(&c, 8, 8), at(&c, 9, 9), at(&c, 7, 9), at(&c, 10, 9)), (1, 1, 0, 0));
    c.clear(0, 0, 2);
    assert_eq!((at(&c, 0, 0), at(&c, 9, 9), at(&c, 10, 0)), (2, 2, 0));
}

#[test]
fn inverting_twice_changes_nothing() {
    let mut c = canvas(10, 10);
    c.put_pixel(1, 1, 9, 9, 9);
    let before = c.snapshot();
    c.invert_rect(0, 0, 4, 4);
    assert_eq!(at(&c, 1, 1), !0x09_0909u32);
    c.invert_rect(0, 0, 4, 4);
    assert_eq!(c.memory, before);
}

#[test]
fn glyphs_are_drawn_bit_by_bit() {
    let mut c = canvas(20, 20);
    c.draw_char(2, 3, '\u{5}', (0, 0, 1), (0, 0, 2), &font());
    let row: Vec<u32> = (2..10).map(|x| at(&c, x, 3)).collect();
    assert_eq!(row, vec![1, 2, 1, 2, 2, 2, 2, 2]);
    assert_eq!(at(&c, 2, 11), 0);
    c.draw_char(2, 3, '\u{E9}', (0, 0, 1), (0, 0, 2), &font());
    assert_eq!(at(&c, 2, 3), 2);
}

#[test]
fn colours_are_mixed() {
    let mut c = canvas(4, 4);
    c.put_pixel(0, 0, 100, 100, 100);
    c.blend_pixel(0, 0, 200, 0, 100, 51);
    assert_eq!(at(&c, 0, 0), 0x78_5064);
    c.blend_pixel(0, 0, 1, 2, 3, 0);
    assert_eq!(at(&c, 0, 0), 0x78_5064);
    c.blend_pixel(0, 0, 1, 2, 3, 255);
    assert_eq!(at(&c, 0, 0), 0x01_0203);
}

#[test]
fn scrolling_moves_rows_up() {
    let mut c = canvas(4, 4);
    c.put_pixel(1, 2, 0, 0, 7);
    c.scroll_up(2, (0, 0, 1));
    assert_eq!((at(&c, 1, 0), at(&c, 1, 1), at(&c, 1, 2), at(&c, 1, 3)), (7, 0, 1, 1));
    let kept = c.snapshot();
    c.clear(9, 9, 9);
    c.blit(&kept);
    assert_eq!(at(&c, 1, 0), 7);
}

#[test]
fn the_splash_has_a_bar_and_a_border() {
    let mut c = canvas(50, 60);
    let bar: Vec<(u8, u8, u8)> = (0..50u8).map(|x| (x, 0, 0)).collect();
    c.draw_boot_splash(&bar);
    assert_eq!(at(&c, 20, 30), 0x14_0000);
    assert_eq!(at(&c, 20, 10 - 1), 0x12_1218);
    assert_eq!(at(&c, 20, 10), 0x14_0000);
    assert_eq!(at(&c, 20, 49), 0x14_0000);
    assert_eq!((at(&c, 3, 30), at(&c, 46, 30), at(&c, 20, 3), at(&c, 20, 56)), (0xF0_F0F0, 0xF0_F0F0, 0xF0_F0F0, 0xF0_F0F0));
    assert_eq!(at(&c, 4, 4), 0x12_1218);
}

#[test]
fn the_console_wraps_and_scrolls() {
    let mut con = Console::new(font());
    con.write_str("lost");
    assert!(!con.is_attached());
    con.attach(canvas(24, 24));
    assert!(con.is_attached());
    assert_eq!((con.cols, con.rows), (3, 3));
    con.write_str("ab\u{8}c\n");
    assert_eq!((con.col, con.row), (0, 1));
    con.write_str("abcd");
    assert_eq!((con.col, con.row), (1, 2));
    con.write_char('\n');
    con.write_char('\n');
    assert_eq!((con.col, con.row), (0, 2));
    con.clear();
    assert_eq!((con.col, con.row), (0, 0));
}

#[test]
fn the_cursor_blinks() {
    let mut con = Console::new(font());
    con.attach(canvas(24, 24));
    let before = con.canvas_mut().unwrap().snapshot();
    con.toggle_cursor();
    assert!(con.canvas_mut().unwrap().memory != before);
    con.toggle_cursor();
    assert_eq!(con.canvas_mut().unwrap().memory, before);
}

#[test]
fn the_arrow_has_transparent_pixels() {
    assert_eq!(pixel(&arrow(), 0, 0), Some((10, 20, 30, 255)));
    assert_eq!(pixel(&arrow(), 5, 5), Some((0, 0, 0, 0)));
    assert_eq!(pixel(&arrow(), 32, 5), None);
    let mut c = canvas(40, 40);
    draw_cursor(&mut c, 6, 6, &arrow());
    assert_eq!((at(&c, 5, 5), at(&c, 6, 5), at(&c, 7, 5)), (0x0A_141E, 0x33_3333, 0));
}

#[test]
fn the_close_button_is_in_the_corner() {
    assert_eq!(close_button_rect(10, 20, 100), (90, 20, 20, 20));
    assert!(point_in_close_button(10, 20, 100, 90, 20));
    assert!(point_in_close_button(10, 20, 100, 109, 39));
    assert!(!point_in_close_button(10, 20, 100, 110, 39));
    assert!(!point_in_close_button(10, 20, 100, 89, 39));
    let mut c = canvas(120, 120);
    draw_chrome(&mut c, 10, 20, 100, 60, "w", false, &font());
    assert_eq!(at(&c, 10, 20), 0x0A_0A0E);
    assert_eq!(at(&c, 91, 21), 0xAA_3232);
    assert_eq!(at(&c, 60, 30), 0x28_2830);
    for py in 40..80 {
        for px in 10..110 {
            assert_eq!(at(&c, px, py), 0);
        }
    }
    draw_chrome(&mut c, 10, 100, 100, 20, "\u{E9}x", true, &font());
    assert_eq!(at(&c, 60, 119), 0x0A_0A0E);
    assert_eq!(at(&c, 25, 108), 0xE6_E6E6);
}

#[test]
fn windows_are_dragged_and_closed() {
    let mut d = Desktop::new(800, 600, vec![]);
    assert!(matches!(d.step(None, 100, 90, 0), Step::Redraw));
    assert!(matches!(d.step(None, 100, 90, 0), Step::Idle));
    d.step(None, 100, 90, 1);
    assert_eq!(d.windows[1].title, "konjac-term");
    d.step(None, 150, 95, 1);
    assert_eq!((d.windows[1].x, d.windows[1].y), (130, 85));
    d.step(None, -500, -500, 1);
    assert_eq!((d.windows[1].x, d.windows[1].y), (0, 0));
    d.step(None, 10, 10, 0);
    d.step(None, 250, 5, 1);
    assert_eq!(d.windows.len(), 1);
    assert_eq!(d.windows[0].title, "about");
    assert!(matches!(d.step(Some(0x1B), 0, 0, 0), Step::Quit));
}

#[test]
fn the_desktop_is_drawn_over_its_background() {
    let mut c = canvas(400, 300);
    let d = Desktop::new(400, 300, vec![5u32; 402 * 300]);
    d.draw(&mut c, 399, 299, &font(), &arrow());
    assert_eq!(at(&c, 1, 1), 5);
    assert_eq!(at(&c, 100, 150), 0x1E_5A82);
    assert_eq!(at(&c, 300, 200), 0x6E_3C82);
}

#[test]
fn the_mouse_stays_on_the_screen() {
    let mut m = Mouse::new(100, 80);
    let (x, y) = position(&m);
    assert_eq!((x, y), (50, 40));
    for b in [0x09u8, 10, 5] {
        m.take_byte(b);
    }
    assert_eq!(position(&m), (60, 35));
    assert!(left_button_down(&m));
    assert_eq!(buttons(&m), 1);
    for b in [0x18u8, 0x80, 0] {
        m.take_byte(b);
    }
    assert_eq!(position(&m), (0, 35));
    assert!(!left_button_down(&m));
    m.take_byte(0x01);
    for b in [0x08u8, 9, 9] {
        m.take_byte(b);
    }
    assert_eq!(position(&m), (9, 26));
    assert_eq!(enabled_config(0x20), 0x02);
}

#[test]
fn the_game_is_drawn_in_its_window() {
    let mut c = canvas(700, 500);
    c.fill_rect(0, 0, 700, 500, 1, 1, 1);
    let before = c.snapshot();
    let win = doom_window_init(&mut c, &font());
    assert_eq!((win.x, win.y, win.w, win.h), (30, 40, 640, 420));
    assert_eq!(at(&c, 100, 200), 0);
    let frame = vec![0x00AA_BBCCu32; 640 * 400];
    let mut window = Some(win);
    assert!(!konjac_doom_blit(&mut window, &mut c, &frame, 640, 400, 5, 5, 0, &font(), &arrow()));
    assert_eq!(at(&c, 100, 200), 0xAA_BBCC);
    assert_eq!(at(&c, 4, 4), 0x0A_141E);
    assert!(!konjac_doom_blit(&mut window, &mut c, &frame, 640, 400, 5, 5, 1, &font(), &arrow()));
    assert!(!konjac_doom_blit(&mut window, &mut c, &frame, 640, 400, 660, 45, 1, &font(), &arrow()));
    assert!(!konjac_doom_blit(&mut window, &mut c, &frame, 640, 400, 660, 45, 0, &font(), &arrow()));
    assert!(konjac_doom_blit(&mut window, &mut c, &frame, 640, 400, 660, 45, 1, &font(), &arrow()));
    assert_eq!(c.memory, before);
    let mut none = None;
    assert!(!konjac_doom_blit(&mut none, &mut c, &[7u32; 4], 2, 2, 0, 0, 1, &font(), &arrow()));
    assert_eq!((at(&c, 349, 249), at(&c, 350, 250), at(&c, 351, 250)), (7, 7, 0x01_0101));
}

#[test]
fn the_game_clock_wraps() {
    assert_eq!(konjac_doom_ticks_ms(123), 1230);
    assert_eq!(konjac_doom_ticks_ms(429_496_730), 4);
    assert!(!sleep_over(1230, 125, 30));
    assert!(sleep_over(1230, 126, 30));
    assert!(sleep_over(u32::MAX - 5, 1, 10));
}

#[test]
fn a_narrow_screen_shows_windows_that_cannot_be_dragged() {
    let mut d = Desktop::new(200, 300, vec![]);
    assert!(matches!(d.step(None, 100, 10, 1), Step::Redraw));
    assert!(matches!(d.step(None, 100, 90, 0), Step::Redraw));
    assert!(!d.can_step(100, 90, 1));
    assert!(d.can_step(100, 150, 1));
    assert!(d.can_step(100, 90, 0));
    // The close button is still there.
    assert!(d.can_step(330, 90, 1));
    d.step(None, 330, 90, 1);
    assert_eq!(d.windows.len(), 1);
    let wide = Desktop::new(800, 600, vec![]);
    assert!(wide.can_step(100, 90, 1));
}
