//! What is written to the ports of simple devices: the interrupt controllers,
//! the serial port and the disk; and what the status of the disk means.
use vstd::prelude::*;

verus! {

// ---- Interrupt controllers ----

pub const PIC1_COMMAND: u16 = 0x20;

pub const PIC1_DATA: u16 = 0x21;

pub const PIC2_COMMAND: u16 = 0xA0;

pub const PIC2_DATA: u16 = 0xA1;

pub const PIC1_OFFSET: u8 = 32;

pub const PIC2_OFFSET: u8 = 40;

/// A byte to write, with its port.
pub type Out = (u16, u8);

/// Moves the hardware interrupts away from the processor's exceptions.
pub open spec fn remap_bytes() -> Seq<Out> {
    seq![
        (PIC1_COMMAND, 0x11u8),
        (PIC2_COMMAND, 0x11u8),
        (PIC1_DATA, PIC1_OFFSET),
        (PIC2_DATA, PIC2_OFFSET),
        (PIC1_DATA, 4u8),
        (PIC2_DATA, 2u8),
        (PIC1_DATA, 1u8),
        (PIC2_DATA, 1u8),
    ]
}

pub fn remap() -> (r: Vec<Out>)
    ensures
        r@ == remap_bytes(),
{
    let r: Vec<Out> = vec![
        (PIC1_COMMAND, 0x11u8),
        (PIC2_COMMAND, 0x11u8),
        (PIC1_DATA, PIC1_OFFSET),
        (PIC2_DATA, PIC2_OFFSET),
        (PIC1_DATA, 4u8),
        (PIC2_DATA, 2u8),
        (PIC1_DATA, 1u8),
        (PIC2_DATA, 1u8),
    ];
    assert(r@ =~= remap_bytes());
    r
}

/// Lets the timer, the keyboard and the second controller through, and nothing
/// else.
pub fn set_masks() -> (r: [Out; 2])
    ensures
        r@ == seq![(PIC1_DATA, 0xF8u8), (PIC2_DATA, 0xFFu8)],
{
    let r = [(PIC1_DATA, 0xF8u8), (PIC2_DATA, 0xFFu8)];
    assert(r@ =~= seq![(PIC1_DATA, 0xF8u8), (PIC2_DATA, 0xFFu8)]);
    r
}

/// The port of the mask that an interrupt's bit is in.
pub fn mask_port(irq: u8) -> (r: u16)
    ensures
        r == if irq < 8 {
            PIC1_DATA
        } else {
            PIC2_DATA
        },
{
    if irq < 8 {
        PIC1_DATA
    } else {
        PIC2_DATA
    }
}

/// A mask with an interrupt's bit cleared.
pub fn unmasked(current: u8, irq: u8) -> (r: u8)
    ensures
        r == current & !(1u8 << (irq % 8)),
{
    let bit: u8 = irq % 8;
    current & !(1u8 << bit)
}

/// What tells the controllers that an interrupt has been handled.
pub open spec fn eoi_bytes(irq: u8) -> Seq<Out> {
    if irq >= 8 {
        seq![(PIC2_COMMAND, 0x20u8), (PIC1_COMMAND, 0x20u8)]
    } else {
        seq![(PIC1_COMMAND, 0x20u8)]
    }
}

pub fn end_of_interrupt(irq: u8) -> (r: Vec<Out>)
    ensures
        r@ == eoi_bytes(irq),
{
    let mut r: Vec<Out> = Vec::new();
    if irq >= 8 {
        r.push((PIC2_COMMAND, 0x20));
    }
    r.push((PIC1_COMMAND, 0x20));
    assert(r@ =~= eoi_bytes(irq));
    r
}

// ---- The serial port ----

pub const COM1: u16 = 0x3F8;

pub struct SerialPort {
    pub initialized: bool,
}

/// 115200 baud, eight bits, no parity, one stop bit, with its queues on and
/// its interrupts off.
pub open spec fn serial_setup() -> Seq<Out> {
    seq![
        (0x3F9u16, 0x00u8),
        (0x3FBu16, 0x80u8),
        (0x3F8u16, 0x01u8),
        (0x3F9u16, 0x00u8),
        (0x3FBu16, 0x03u8),
        (0x3FAu16, 0xC7u8),
        (0x3FCu16, 0x0Bu8),
    ]
}

impl SerialPort {
    pub fn new() -> (r: SerialPort)
        ensures
            !r.initialized,
    {
        SerialPort { initialized: false }
    }

    /// Sets the port up, the first time it is called.
    pub fn init(&mut self) -> (r: Vec<Out>)
        ensures
            final(self).initialized,
            r@ == if old(self).initialized {
                Seq::empty()
            } else {
                serial_setup()
            },
    {
        if self.initialized {
            let none: Vec<Out> = Vec::new();
            assert(none@ =~= Seq::empty());
            return none;
        }
        self.initialized = true;
        let r: Vec<Out> = vec![
            (0x3F9u16, 0x00u8),
            (0x3FBu16, 0x80u8),
            (0x3F8u16, 0x01u8),
            (0x3F9u16, 0x00u8),
            (0x3FBu16, 0x03u8),
            (0x3FAu16, 0xC7u8),
            (0x3FCu16, 0x0Bu8),
        ];
        assert(r@ =~= serial_setup());
        r
    }
}

/// Whether the status says that the next byte can be sent.
pub fn transmit_empty(status: u8) -> (r: bool)
    ensures
        r == (status & 0x20 != 0),
{
    status & 0x20 != 0
}

/// The bytes that a terminal is sent for one byte of text: a line break
/// returns the carriage too.
pub open spec fn terminal_bytes(b: u8) -> Seq<u8> {
    if b == 0x0A {
        seq![0x0Du8, 0x0Au8]
    } else {
        seq![b]
    }
}

/// The bytes that a terminal is sent for a text.
pub open spec fn terminal_text(t: Seq<u8>) -> Seq<u8>
    decreases t.len(),
{
    if t.len() == 0 {
        Seq::empty()
    } else {
        terminal_text(t.drop_last()) + terminal_bytes(t.last())
    }
}

pub fn to_terminal(t: &[u8]) -> (r: Vec<u8>)
    ensures
        r@ == terminal_text(t@),
{
    let mut out: Vec<u8> = Vec::new();
    let n: usize = t.len();
    assert(t@.take(0) =~= Seq::empty());
    for i in 0..n
        invariant
            n == t@.len(),
            out@ == terminal_text(t@.take(i as int)),
    {
        assert(t@.take(i + 1).drop_last() =~= t@.take(i as int));
        let ghost before = out@;
        if t[i] == 0x0A {
            out.push(0x0D);
        }
        out.push(t[i]);
        assert(out@ =~= before + terminal_bytes(t@[i as int]));
    }
    assert(t@.take(n as int) =~= t@);
    out
}

// ---- The disk ----

pub const SECTOR_SIZE: usize = 512;

pub const STATUS_ERR: u8 = 0x01;

pub const STATUS_DRQ: u8 = 0x08;

pub const STATUS_DF: u8 = 0x20;

pub const STATUS_BSY: u8 = 0x80;

pub const MAX_POLL_ATTEMPTS: u32 = 10_000_000;

/// What is wrong with the disk, by its status.
pub open spec fn disk_error(status: u8) -> &'static str {
    if status == 0xFF {
        "ATA error: no drive responding (floating bus -- is a disk image actually attached as the primary master/ide0 drive? check that disk.img exists and was passed to QEMU)"
    } else if status & STATUS_ERR != 0 && status & STATUS_DF != 0 {
        "ATA error (both ERR and DF set -- the drive reported a command error and a device fault)"
    } else if status & STATUS_DF != 0 {
        "ATA error (DF set -- device fault)"
    } else {
        "ATA error (ERR set -- the drive rejected the command, e.g. the requested sector is past the end of the disk image)"
    }
}

pub fn status_to_message(status: u8) -> (r: &'static str)
    ensures
        r == disk_error(status),
{
    if status == 0xFF {
        "ATA error: no drive responding (floating bus -- is a disk image actually attached as the primary master/ide0 drive? check that disk.img exists and was passed to QEMU)"
    } else if status & STATUS_ERR != 0 && status & STATUS_DF != 0 {
        "ATA error (both ERR and DF set -- the drive reported a command error and a device fault)"
    } else if status & STATUS_DF != 0 {
        "ATA error (DF set -- device fault)"
    } else {
        "ATA error (ERR set -- the drive rejected the command, e.g. the requested sector is past the end of the disk image)"
    }
}

/// What a look at the disk's status tells.
#[derive(Clone, Copy, PartialEq, Eq, Structural, Debug)]
pub enum Poll {
    Again,
    Ready,
    Failed(u8),
}

/// Waiting for the disk to have data, or to take some: how one look at its
/// status goes on. `data` is whether the data has to be there too.
pub open spec fn poll_of(status: u8, data: bool) -> Poll {
    if status == 0xFF {
        Poll::Failed(status)
    } else if status & STATUS_BSY != 0 {
        Poll::Again
    } else if status & STATUS_ERR != 0 || status & STATUS_DF != 0 {
        Poll::Failed(status)
    } else if !data || status & STATUS_DRQ != 0 {
        Poll::Ready
    } else {
        Poll::Again
    }
}

/// Looks at the disk's status while it prepares a sector.
pub fn poll_ready(status: u8) -> (r: Poll)
    ensures
        r == poll_of(status, true),
{
    if status == 0xFF {
        Poll::Failed(status)
    } else if status & STATUS_BSY != 0 {
        Poll::Again
    } else if status & STATUS_ERR != 0 || status & STATUS_DF != 0 {
        Poll::Failed(status)
    } else if status & STATUS_DRQ != 0 {
        Poll::Ready
    } else {
        Poll::Again
    }
}

/// Looks at the disk's status while it stores a sector.
pub fn poll_done(status: u8) -> (r: Poll)
    ensures
        r == poll_of(status, false),
{
    if status == 0xFF {
        Poll::Failed(status)
    } else if status & STATUS_BSY != 0 {
        Poll::Again
    } else if status & STATUS_ERR != 0 || status & STATUS_DF != 0 {
        Poll::Failed(status)
    } else {
        Poll::Ready
    }
}

/// The bytes that ask for one sector: where it is, and the command.
pub open spec fn sector_command(lba: u32, write: bool) -> Seq<Out> {
    seq![
        (0x1F6u16, (0xE0 + lba / 0x100_0000 % 16) as u8),
        (0x1F1u16, 0u8),
        (0x1F2u16, 1u8),
        (0x1F3u16, (lba % 256) as u8),
        (0x1F4u16, (lba / 256 % 256) as u8),
        (0x1F5u16, (lba / 0x1_0000 % 256) as u8),
        (
            0x1F7u16,
            if write {
                0x30u8
            } else {
                0x20u8
            },
        ),
    ]
}

pub fn command_for(lba: u32, write: bool) -> (r: Vec<Out>)
    ensures
        r@ == sector_command(lba, write),
{
    let head: u8 = (0xE0 + lba / 0x100_0000 % 16) as u8;
    let command: u8 = if write {
        0x30
    } else {
        0x20
    };
    let r: Vec<Out> = vec![
        (0x1F6u16, head),
        (0x1F1u16, 0u8),
        (0x1F2u16, 1u8),
        (0x1F3u16, (lba % 256) as u8),
        (0x1F4u16, (lba / 256 % 256) as u8),
        (0x1F5u16, (lba / 0x1_0000 % 256) as u8),
        (0x1F7u16, command),
    ];
    assert(r@ =~= sector_command(lba, write));
    r
}

} // verus!
