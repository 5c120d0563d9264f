//! The mouse: three-byte packets from the controller become a position on the
//! screen and the state of the buttons.
use vstd::prelude::*;

verus! {

pub const LEFT_BUTTON: u8 = 1;

pub const RIGHT_BUTTON: u8 = 2;

pub const MIDDLE_BUTTON: u8 = 4;

pub struct Mouse {
    pub x: i32,
    pub y: i32,
    pub buttons: u8,
    pub screen_w: i32,
    pub screen_h: i32,
    pub packet: Vec<u8>,
}

/// The nearest number to `v` that is not below `lo` nor above `hi`.
pub open spec fn clamped(v: int, lo: int, hi: int) -> int {
    if v < lo {
        lo
    } else if v > hi {
        hi
    } else {
        v
    }
}

/// How far a packet says that the mouse has moved in one direction: the ninth
/// bit of the number is a flag.
pub open spec fn movement(byte: u8, negative: bool) -> int {
    if negative {
        byte - 256
    } else {
        byte as int
    }
}

impl Mouse {
    /// The position is on the screen.
    pub open spec fn wf(self) -> bool {
        &&& 1 <= self.screen_w
        &&& 1 <= self.screen_h
        &&& 0 <= self.x < self.screen_w
        &&& 0 <= self.y < self.screen_h
        &&& self.packet@.len() < 3
    }

    /// What a byte from the controller does.
    pub open spec fn packet_taken(self, byte: u8, after: Mouse) -> bool {
        let p = self.packet@;
        if p.len() == 0 && byte & 8 == 0 {
            after.packet@ == p && after.x == self.x && after.y == self.y && after.buttons == self.buttons
        } else if p.len() < 2 {
            after.packet@ == p.push(byte) && after.x == self.x && after.y == self.y && after.buttons == self.buttons
        } else {
            &&& after.packet@.len() == 0
            &&& after.x == clamped(self.x + movement(p[1], p[0] & 0x10 != 0), 0, self.screen_w - 1)
            &&& after.y == clamped(self.y - movement(byte, p[0] & 0x20 != 0), 0, self.screen_h - 1)
            &&& after.buttons == p[0] & 7
        }
    }

    /// A mouse in the middle of the screen.
    pub fn new(screen_w: u64, screen_h: u64) -> (r: Mouse)
        requires
            screen_w <= 0x7FFF_FFFF,
            screen_h <= 0x7FFF_FFFF,
        ensures
            r.wf(),
            r.x == screen_w / 2,
            r.y == screen_h / 2,
            r.buttons == 0,
            r.screen_w == if screen_w == 0 {
                1
            } else {
                screen_w as int
            },
            r.screen_h == if screen_h == 0 {
                1
            } else {
                screen_h as int
            },
            r.packet@.len() == 0,
    {
        Mouse {
            x: (screen_w / 2) as i32,
            y: (screen_h / 2) as i32,
            buttons: 0,
            screen_w: if screen_w == 0 {
                1
            } else {
                screen_w as i32
            },
            screen_h: if screen_h == 0 {
                1
            } else {
                screen_h as i32
            },
            packet: Vec::new(),
        }
    }

    /// Takes a byte from the mouse. A first byte without its marker is
    /// dropped; the third byte of a packet moves the pointer, upwards for a
    /// positive vertical movement, and never off the screen.
    pub fn take_byte(&mut self, byte: u8)
        requires
            old(self).wf(),
        ensures
            final(self).wf(),
            final(self).screen_w == old(self).screen_w,
            final(self).screen_h == old(self).screen_h,
            old(self).packet_taken(byte, *final(self)),
    {
        if self.packet.len() == 0 && byte & 8 == 0 {
            return;
        }
        if self.packet.len() < 2 {
            self.packet.push(byte);
            return;
        }
        let flags: u8 = self.packet[0];
        let mut dx: i64 = self.packet[1] as i64;
        let mut dy: i64 = byte as i64;
        if flags & 0x10 != 0 {
            dx = dx - 256;
        }
        if flags & 0x20 != 0 {
            dy = dy - 256;
        }
        self.x = clamp(self.x as i64 + dx, self.screen_w - 1);
        self.y = clamp(self.y as i64 - dy, self.screen_h - 1);
        self.buttons = flags & 7;
        self.packet = Vec::new();
    }
}

/// Where the pointer is.
pub fn position(m: &Mouse) -> (r: (i32, i32))
    ensures
        r == (m.x, m.y),
{
    (m.x, m.y)
}

/// Which buttons are down.
pub fn buttons(m: &Mouse) -> (r: u8)
    ensures
        r == m.buttons,
{
    m.buttons
}

pub fn left_button_down(m: &Mouse) -> (r: bool)
    ensures
        r == (m.buttons & LEFT_BUTTON != 0),
{
    m.buttons & LEFT_BUTTON != 0
}

fn clamp(v: i64, hi: i32) -> (r: i32)
    requires
        0 <= hi,
    ensures
        r == clamped(v as int, 0, hi as int),
{
    if v < 0 {
        0
    } else if v > hi as i64 {
        hi
    } else {
        v as i32
    }
}

/// The controller's configuration with the mouse's interrupt switched on and
/// its clock running.
pub fn enabled_config(config: u8) -> (r: u8)
    ensures
        r == (config | 0x02) & !0x20u8,
{
    (config | 0x02) & !0x20u8
}

} // verus!
