//! The timer: how often it ticks, how it is set up, and how long it has been
//! running.
use vstd::prelude::*;

verus! {

pub const PIT_CHANNEL0: u16 = 0x40;

pub const PIT_COMMAND: u16 = 0x43;

pub const PIT_BASE_FREQUENCY: u32 = 1_193_182;

/// Ticks per second.
pub const HZ: u32 = 100;

/// Counts the ticks since the timer was started.
pub struct Timer {
    pub count: u64,
}

impl Timer {
    pub fn new() -> (r: Timer)
        ensures
            r.count == 0,
    {
        Timer { count: 0 }
    }

    /// Counts one more tick.
    pub fn tick(&mut self)
        ensures
            final(self).count == old(self).count.wrapping_add(1),
    {
        self.count = self.count.wrapping_add(1);
    }
}

/// How many ticks there have been.
pub fn ticks(t: &Timer) -> (r: u64)
    ensures
        r == t.count,
{
    t.count
}

/// How many whole seconds the timer has been running.
pub fn uptime_seconds(t: &Timer) -> (r: u64)
    ensures
        r == t.count / HZ as u64,
{
    t.count / HZ as u64
}

/// The bytes to send to the timer chip, each with its port: a square wave on
/// the first channel, and the divisor that makes it tick [`HZ`] times a
/// second, low byte first.
pub fn setup() -> (r: [(u16, u8); 3])
    ensures
        r@ == seq![
            (PIT_COMMAND, 0x36u8),
            (PIT_CHANNEL0, (PIT_BASE_FREQUENCY / HZ % 256) as u8),
            (PIT_CHANNEL0, (PIT_BASE_FREQUENCY / HZ / 256) as u8),
        ],
{
    let divisor: u32 = PIT_BASE_FREQUENCY / HZ;
    let r = [
        (PIT_COMMAND, 0x36u8),
        (PIT_CHANNEL0, (divisor % 256) as u8),
        (PIT_CHANNEL0, (divisor / 256) as u8),
    ];
    assert(r@ =~= seq![
        (PIT_COMMAND, 0x36u8),
        (PIT_CHANNEL0, (PIT_BASE_FREQUENCY / HZ % 256) as u8),
        (PIT_CHANNEL0, (PIT_BASE_FREQUENCY / HZ / 256) as u8),
    ]);
    r
}

} // verus!
