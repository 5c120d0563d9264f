//! The keyboard: scancodes become characters for the shell and key events for
//! games, each waiting in a queue of limited size.
use vstd::prelude::*;
use vstd::string::*;

verus! {

/// A queue of limited size. When it is full, what comes is dropped.
pub struct Ring {
    pub slots: Vec<u16>,
    pub head: usize,
    pub tail: usize,
}

impl Ring {
    pub open spec fn wf(self) -> bool {
        &&& 2 <= self.slots@.len() <= 1024
        &&& self.head < self.slots@.len()
        &&& self.tail < self.slots@.len()
    }

    /// How many items wait.
    pub open spec fn count(self) -> int {
        if self.head >= self.tail {
            self.head - self.tail
        } else {
            self.head + self.slots@.len() - self.tail
        }
    }

    /// The slot that holds waiting item number `i`.
    pub open spec fn place(self, i: int) -> int {
        if self.tail + i < self.slots@.len() {
            self.tail + i
        } else {
            self.tail + i - self.slots@.len()
        }
    }

    /// The items that wait, the oldest first.
    pub open spec fn view(self) -> Seq<u16> {
        Seq::new(self.count() as nat, |i: int| self.slots@[self.place(i)])
    }

    /// How many items can wait at most.
    pub open spec fn room(self) -> int {
        self.slots@.len() - 1
    }

    pub fn new(size: usize) -> (r: Ring)
        requires
            2 <= size <= 1024,
        ensures
            r.wf(),
            r@ == Seq::<u16>::empty(),
            r.room() == size - 1,
    {
        let mut slots: Vec<u16> = Vec::new();
        for i in 0..size
            invariant
                slots@.len() == i,
        {
            slots.push(0);
        }
        let r = Ring { slots, head: 0, tail: 0 };
        assert(r@ =~= Seq::<u16>::empty());
        r
    }

    /// Adds an item, unless the queue is full.
    pub fn push(&mut self, item: u16)
        requires
            old(self).wf(),
        ensures
            final(self).wf(),
            final(self).room() == old(self).room(),
            final(self)@ == if old(self)@.len() < old(self).room() {
                old(self)@.push(item)
            } else {
                old(self)@
            },
    {
        let n: usize = self.slots.len();
        let next: usize = if self.head + 1 == n {
            0
        } else {
            self.head + 1
        };
        if next == self.tail {
            return;
        }
        let ghost before = *self;
        let head: usize = self.head;
        self.slots[head] = item;
        self.head = next;
        assert(self@ =~= before@.push(item));
    }

    /// Takes the oldest item.
    pub fn pop(&mut self) -> (r: Option<u16>)
        requires
            old(self).wf(),
        ensures
            final(self).wf(),
            final(self).room() == old(self).room(),
            if old(self)@.len() == 0 {
                r is None && final(self)@ == old(self)@
            } else {
                r == Some(old(self)@[0]) && final(self)@ == old(self)@.drop_first()
            },
    {
        if self.tail == self.head {
            return None;
        }
        let ghost before = *self;
        let item: u16 = self.slots[self.tail];
        self.tail = if self.tail + 1 == self.slots.len() {
            0
        } else {
            self.tail + 1
        };
        assert(self@ =~= before@.drop_first());
        Some(item)
    }

    /// Forgets everything that waits.
    pub fn clear(&mut self)
        requires
            old(self).wf(),
        ensures
            final(self).wf(),
            final(self).room() == old(self).room(),
            final(self)@ == Seq::<u16>::empty(),
    {
        self.tail = self.head;
        assert(self@ =~= Seq::<u16>::empty());
    }
}

// ---- Scancodes ----

/// The character for a key in a row of keys whose first has the code `start`.
pub open spec fn in_row(row: &str, start: u8, code: u8) -> u8 {
    if start <= code && code - start < row.spec_bytes().len() {
        row.spec_bytes()[code - start]
    } else {
        0
    }
}

fn from_row(row: &str, start: u8, code: u8) -> (r: u8)
    ensures
        r == in_row(row, start, code),
{
    let keys = row.as_bytes();
    if start <= code && ((code - start) as usize) < keys.len() {
        keys[(code - start) as usize]
    } else {
        0
    }
}

/// The character that a key types, or 0.
pub open spec fn plain_char(code: u8) -> u8 {
    if code == 0x01 {
        0x1B
    } else if code <= 0x0D {
        in_row("1234567890-=", 0x02, code)
    } else if code == 0x0E {
        0x08
    } else if code == 0x0F {
        0x09
    } else if code <= 0x1B {
        in_row("qwertyuiop[]", 0x10, code)
    } else if code == 0x1C {
        0x0A
    } else if code <= 0x29 {
        in_row("asdfghjkl;'`", 0x1E, code)
    } else if code <= 0x35 {
        in_row("\\zxcvbnm,./", 0x2B, code)
    } else if code == 0x39 {
        0x20
    } else {
        0
    }
}

/// The character that a key types while shift is held, or 0.
pub open spec fn shifted_char(code: u8) -> u8 {
    if code <= 0x0D {
        in_row("!@#$%^&*()_+", 0x02, code)
    } else if code <= 0x1B {
        in_row("QWERTYUIOP{}", 0x10, code)
    } else if code <= 0x29 {
        in_row("ASDFGHJKL:\"~", 0x1E, code)
    } else if code <= 0x35 {
        in_row("|ZXCVBNM<>?", 0x2B, code)
    } else {
        0
    }
}

/// The code that games know a key by, or 0.
pub open spec fn game_key(code: u8) -> u8 {
    if code == 0x0E {
        0x7f
    } else if code == 0x1C {
        13
    } else if code == 0x1D {
        0xa3
    } else if code == 0x2A || code == 0x36 {
        0xb6
    } else if code == 0x38 {
        0xb8
    } else if code == 0x39 {
        0xa2
    } else if 0x3B <= code <= 0x44 {
        (0x80 + code) as u8
    } else if code == 0x48 {
        0xad
    } else if code == 0x4B {
        0xac
    } else if code == 0x4D {
        0xae
    } else if code == 0x50 {
        0xaf
    } else {
        plain_char(code)
    }
}

fn plain(code: u8) -> (r: u8)
    ensures
        r == plain_char(code),
{
    if code == 0x01 {
        0x1B
    } else if code <= 0x0D {
        from_row("1234567890-=", 0x02, code)
    } else if code == 0x0E {
        0x08
    } else if code == 0x0F {
        0x09
    } else if code <= 0x1B {
        from_row("qwertyuiop[]", 0x10, code)
    } else if code == 0x1C {
        0x0A
    } else if code <= 0x29 {
        from_row("asdfghjkl;'`", 0x1E, code)
    } else if code <= 0x35 {
        from_row("\\zxcvbnm,./", 0x2B, code)
    } else if code == 0x39 {
        0x20
    } else {
        0
    }
}

fn shifted(code: u8) -> (r: u8)
    ensures
        r == shifted_char(code),
{
    if code <= 0x0D {
        from_row("!@#$%^&*()_+", 0x02, code)
    } else if code <= 0x1B {
        from_row("QWERTYUIOP{}", 0x10, code)
    } else if code <= 0x29 {
        from_row("ASDFGHJKL:\"~", 0x1E, code)
    } else if code <= 0x35 {
        from_row("|ZXCVBNM<>?", 0x2B, code)
    } else {
        0
    }
}

fn game(code: u8) -> (r: u8)
    ensures
        r == game_key(code),
{
    if code == 0x0E {
        0x7f
    } else if code == 0x1C {
        13
    } else if code == 0x1D {
        0xa3
    } else if code == 0x2A || code == 0x36 {
        0xb6
    } else if code == 0x38 {
        0xb8
    } else if code == 0x39 {
        0xa2
    } else if 0x3B <= code && code <= 0x44 {
        0x80 + code
    } else if code == 0x48 {
        0xad
    } else if code == 0x4B {
        0xac
    } else if code == 0x4D {
        0xae
    } else if code == 0x50 {
        0xaf
    } else {
        plain(code)
    }
}

pub const LEFT_SHIFT_MAKE: u8 = 0x2A;

pub const LEFT_SHIFT_BREAK: u8 = 0xAA;

pub const RIGHT_SHIFT_MAKE: u8 = 0x36;

pub const RIGHT_SHIFT_BREAK: u8 = 0xB6;

pub struct Keyboard {
    pub shift: bool,
    pub chars: Ring,
    pub events: Ring,
}

/// A queue after an item has come.
pub open spec fn queued(q: Seq<u16>, room: int, item: u16) -> Seq<u16> {
    if q.len() < room {
        q.push(item)
    } else {
        q
    }
}

/// Whether shift is held after a scancode.
pub open spec fn shift_after(shift: bool, scancode: u8) -> bool {
    if scancode == LEFT_SHIFT_MAKE || scancode == RIGHT_SHIFT_MAKE {
        true
    } else if scancode == LEFT_SHIFT_BREAK || scancode == RIGHT_SHIFT_BREAK {
        false
    } else {
        shift
    }
}

/// The character that a scancode types, or 0: only keys that go down type.
pub open spec fn typed_char(shift: bool, scancode: u8) -> u8 {
    if scancode == LEFT_SHIFT_MAKE || scancode == RIGHT_SHIFT_MAKE || scancode >= 0x80 {
        0
    } else if shift {
        shifted_char(scancode)
    } else {
        plain_char(scancode)
    }
}

/// An event as the queue holds it: the key, and whether it went down.
pub open spec fn event(down: bool, key: u8) -> u16 {
    if down {
        (0x100 + key) as u16
    } else {
        key as u16
    }
}

impl Keyboard {
    pub open spec fn wf(self) -> bool {
        self.chars.wf() && self.events.wf()
    }

    /// What a scancode does.
    pub open spec fn scanned(self, scancode: u8, after: Keyboard) -> bool {
        let c = typed_char(self.shift, scancode);
        let key = game_key((scancode % 0x80) as u8);
        &&& after.shift == shift_after(self.shift, scancode)
        &&& after.chars@ == if c != 0 {
            queued(self.chars@, self.chars.room(), c as u16)
        } else {
            self.chars@
        }
        &&& after.events@ == if key != 0 {
            queued(self.events@, self.events.room(), event(scancode < 0x80, key))
        } else {
            self.events@
        }
    }

    pub fn new() -> (r: Keyboard)
        ensures
            r.wf(),
            !r.shift,
            r.chars@.len() == 0,
            r.events@.len() == 0,
            r.chars.room() == 127,
            r.events.room() == 63,
    {
        Keyboard { shift: false, chars: Ring::new(128), events: Ring::new(64) }
    }

    /// Takes a scancode from the keyboard.
    pub fn take_scancode(&mut self, scancode: u8)
        requires
            old(self).wf(),
        ensures
            final(self).wf(),
            final(self).chars.room() == old(self).chars.room(),
            final(self).events.room() == old(self).events.room(),
            old(self).scanned(scancode, *final(self)),
    {
        if scancode == LEFT_SHIFT_MAKE || scancode == RIGHT_SHIFT_MAKE {
            self.shift = true;
        } else if scancode == LEFT_SHIFT_BREAK || scancode == RIGHT_SHIFT_BREAK {
            self.shift = false;
        } else if scancode < 0x80 {
            let c: u8 = if self.shift {
                shifted(scancode)
            } else {
                plain(scancode)
            };
            if c != 0 {
                self.chars.push(c as u16);
            }
        }
        let key: u8 = game(scancode % 0x80);
        if key != 0 {
            let item: u16 = if scancode < 0x80 {
                0x100 + key as u16
            } else {
                key as u16
            };
            self.events.push(item);
        }
    }
}

/// Takes the next character that was typed.
pub fn read_char(k: &mut Keyboard) -> (r: Option<u8>)
    requires
        old(k).wf(),
    ensures
        final(k).wf(),
        final(k).shift == old(k).shift,
        final(k).events == old(k).events,
        final(k).chars.room() == old(k).chars.room(),
        if old(k).chars@.len() == 0 {
            r is None && final(k).chars@ == old(k).chars@
        } else {
            r == Some((old(k).chars@[0] % 0x100) as u8) && final(k).chars@ == old(k).chars@.drop_first()
        },
{
    match k.chars.pop() {
        Some(c) => Some((c % 0x100) as u8),
        None => None,
    }
}

/// Takes the next key event: whether the key went down, and which.
pub fn read_doom_event(k: &mut Keyboard) -> (r: Option<(bool, u8)>)
    requires
        old(k).wf(),
    ensures
        final(k).wf(),
        final(k).shift == old(k).shift,
        final(k).chars == old(k).chars,
        final(k).events.room() == old(k).events.room(),
        if old(k).events@.len() == 0 {
            r is None && final(k).events@ == old(k).events@
        } else {
            r == Some((old(k).events@[0] / 0x100 != 0, (old(k).events@[0] % 0x100) as u8)) && final(k).events@ == old(k).events@.drop_first()
        },
{
    match k.events.pop() {
        Some(e) => Some((e / 0x100 != 0, (e % 0x100) as u8)),
        None => None,
    }
}

/// Forgets the key events that wait.
pub fn clear_doom_events(k: &mut Keyboard)
    requires
        old(k).wf(),
    ensures
        final(k).wf(),
        final(k).shift == old(k).shift,
        final(k).chars == old(k).chars,
        final(k).events.room() == old(k).events.room(),
        final(k).events@.len() == 0,
{
    k.events.clear();
}

/// An event that was queued comes out as it went in.
pub proof fn law_events_come_out(down: bool, key: u8)
    ensures
        event(down, key) / 0x100 != 0 <==> down,
        (event(down, key) % 0x100) as u8 == key,
{
}

} // verus!
