//! The mouse pointer's picture: 32 by 32 pixels, each with red, green, blue
//! and how opaque it is.
use vstd::prelude::*;

verus! {

pub const WIDTH: u32 = 32;

pub const HEIGHT: u32 = 32;

pub const HOTSPOT_X: i32 = 1;

pub const HOTSPOT_Y: i32 = 1;

/// The picture, row by row, four bytes for each pixel.
pub struct Arrow {
    pub rgba: Vec<u8>,
}

impl Arrow {
    pub open spec fn wf(self) -> bool {
        self.rgba@.len() == 4096
    }

    /// The pixel in row `y` and column `x`.
    pub open spec fn at(self, x: int, y: int) -> (u8, u8, u8, u8) {
        let i = (y * 32 + x) * 4;
        (self.rgba@[i], self.rgba@[i + 1], self.rgba@[i + 2], self.rgba@[i + 3])
    }
}

pub fn pixel(arrow: &Arrow, x: u32, y: u32) -> (r: Option<(u8, u8, u8, u8)>)
    requires
        arrow.wf(),
    ensures
        r == if x < WIDTH && y < HEIGHT {
            Some(arrow.at(x as int, y as int))
        } else {
            None
        },
{
    if x >= WIDTH || y >= HEIGHT {
        return None;
    }
    let i: usize = ((y * WIDTH + x) * 4) as usize;
    Some((arrow.rgba[i], arrow.rgba[i + 1], arrow.rgba[i + 2], arrow.rgba[i + 3]))
}

} // verus!
