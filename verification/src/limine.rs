//! The parts of the Limine boot protocol's answers that the kernel reads:
//! base revision negotiation, the memory map and the framebuffer description.
use vstd::prelude::*;

verus! {

/// What the bootloader calls itself.
pub struct BootloaderInfo {
    pub name: &'static str,
    pub version: &'static str,
}

/// The geometry and channel layout of one framebuffer.
#[derive(Clone, Copy, PartialEq, Eq, Structural, Debug)]
pub struct Framebuffer {
    pub width: u64,
    pub height: u64,
    pub pitch: u64,
    pub bpp: u16,
    pub red_mask_shift: u8,
    pub green_mask_shift: u8,
    pub blue_mask_shift: u8,
}

/// The purpose of one region of physical memory.
#[derive(Clone, Copy, Debug, PartialEq, Eq, Structural)]
pub enum MemmapKind {
    Usable,
    Reserved,
    AcpiReclaimable,
    AcpiNvs,
    BadMemory,
    BootloaderReclaimable,
    ExecutableAndModules,
    Framebuffer,
    Unknown(u64),
}

/// One region of the physical memory map.
#[derive(Clone, Copy, Debug, PartialEq, Eq, Structural)]
pub struct MemmapEntry {
    pub base: u64,
    pub length: u64,
    pub kind: MemmapKind,
}

/// One region as the bootloader writes it, its kind still a number.
#[derive(Clone, Copy, Debug, PartialEq, Eq, Structural)]
pub struct MemmapEntryRaw {
    pub base: u64,
    pub length: u64,
    pub kind: u64,
}

/// The kind that the protocol's number `v` stands for.
pub open spec fn kind_of(v: u64) -> MemmapKind {
    if v == 0 {
        MemmapKind::Usable
    } else if v == 1 {
        MemmapKind::Reserved
    } else if v == 2 {
        MemmapKind::AcpiReclaimable
    } else if v == 3 {
        MemmapKind::AcpiNvs
    } else if v == 4 {
        MemmapKind::BadMemory
    } else if v == 5 {
        MemmapKind::BootloaderReclaimable
    } else if v == 6 {
        MemmapKind::ExecutableAndModules
    } else if v == 7 {
        MemmapKind::Framebuffer
    } else {
        MemmapKind::Unknown(v)
    }
}

/// The region that a raw region describes.
pub open spec fn entry_of(raw: MemmapEntryRaw) -> MemmapEntry {
    MemmapEntry { base: raw.base, length: raw.length, kind: kind_of(raw.kind) }
}

impl MemmapKind {
    pub fn from_raw(v: u64) -> (r: MemmapKind)
        ensures
            r == kind_of(v),
    {
        match v {
            0 => MemmapKind::Usable,
            1 => MemmapKind::Reserved,
            2 => MemmapKind::AcpiReclaimable,
            3 => MemmapKind::AcpiNvs,
            4 => MemmapKind::BadMemory,
            5 => MemmapKind::BootloaderReclaimable,
            6 => MemmapKind::ExecutableAndModules,
            7 => MemmapKind::Framebuffer,
            other => MemmapKind::Unknown(other),
        }
    }

    /// The word shown for this kind.
    pub open spec fn text(self) -> &'static str {
        match self {
            MemmapKind::Usable => "usable",
            MemmapKind::Reserved => "reserved",
            MemmapKind::AcpiReclaimable => "ACPI reclaimable",
            MemmapKind::AcpiNvs => "ACPI NVS",
            MemmapKind::BadMemory => "bad memory",
            MemmapKind::BootloaderReclaimable => "bootloader reclaimable",
            MemmapKind::ExecutableAndModules => "kernel/modules",
            MemmapKind::Framebuffer => "framebuffer",
            MemmapKind::Unknown(_) => "unknown",
        }
    }

    pub fn as_str(&self) -> (r: &'static str)
        ensures
            r == self.text(),
    {
        match self {
            MemmapKind::Usable => "usable",
            MemmapKind::Reserved => "reserved",
            MemmapKind::AcpiReclaimable => "ACPI reclaimable",
            MemmapKind::AcpiNvs => "ACPI NVS",
            MemmapKind::BadMemory => "bad memory",
            MemmapKind::BootloaderReclaimable => "bootloader reclaimable",
            MemmapKind::ExecutableAndModules => "kernel/modules",
            MemmapKind::Framebuffer => "framebuffer",
            MemmapKind::Unknown(_) => "unknown",
        }
    }
}

/// Whether the bootloader accepted the requested base revision: it answers by
/// rewriting the third word of the request to zero.
pub fn base_revision_supported(request: [u64; 3]) -> (r: bool)
    ensures
        r == (request@[2] == 0),
{
    request[2] == 0
}

/// A walk over the raw memory map, one region at a time.
pub struct MemmapIter {
    pub entries: Vec<MemmapEntryRaw>,
    pub index: usize,
}

impl MemmapIter {
    pub open spec fn wf(self) -> bool {
        self.index <= self.entries@.len()
    }

    /// The regions not yet handed out.
    pub open spec fn rest(self) -> Seq<MemmapEntry> {
        Seq::new((self.entries@.len() - self.index) as nat, |i: int| entry_of(self.entries@[self.index + i]))
    }

    pub fn new(entries: Vec<MemmapEntryRaw>) -> (r: MemmapIter)
        ensures
            r.wf(),
            r.rest() == entries@.map_values(|e: MemmapEntryRaw| entry_of(e)),
    {
        let r = MemmapIter { entries, index: 0 };
        assert(r.rest() =~= entries@.map_values(|e: MemmapEntryRaw| entry_of(e)));
        r
    }

    /// Hands out the next region, or `None` once all have been.
    pub fn next(&mut self) -> (r: Option<MemmapEntry>)
        requires
            old(self).wf(),
        ensures
            final(self).wf(),
            old(self).rest().len() == 0 ==> r is None && *final(self) == *old(self),
            old(self).rest().len() > 0 ==> r == Some(old(self).rest()[0]) && final(self).rest() == old(self).rest().drop_first(),
    {
        if self.index >= self.entries.len() {
            return None;
        }
        let raw = self.entries[self.index];
        self.index += 1;
        assert(self.rest() =~= old(self).rest().drop_first());
        Some(MemmapEntry { base: raw.base, length: raw.length, kind: MemmapKind::from_raw(raw.kind) })
    }
}

/// All regions of a raw memory map, in order.
pub fn memmap(entries: Vec<MemmapEntryRaw>) -> (r: Vec<MemmapEntry>)
    ensures
        r@ == entries@.map_values(|e: MemmapEntryRaw| entry_of(e)),
{
    let mut out: Vec<MemmapEntry> = Vec::new();
    let mut it = MemmapIter::new(entries);
    let ghost all = it.rest();
    loop
        invariant
            it.wf(),
            out@ + it.rest() == all,
        ensures
            out@ == all,
        decreases it.rest().len(),
    {
        match it.next() {
            Some(e) => {
                out.push(e);
                assert(out@ + it.rest() =~= all);
            },
            None => {
                assert(out@ + it.rest() =~= out@);
                break;
            },
        }
    }
    out
}

} // verus!
