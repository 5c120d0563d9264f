//! The program loader: recognises flat binaries, ELF64 and PE32+ executables,
//! and lays them out in an address space of their own.
use crate::elf::{elf_image, parse_elf, parse_elf_at, R_X86_64_64};
use crate::fat16::{read_file, Fs};
use crate::le::{bytes64, put64};
use crate::loader_laws::{law_loading_keeps_source, law_loading_keeps_space};
use crate::paging::{
    new_address_space, path_ok, table_at, tables_ok, tables_used, target, with_root, Mem, Memory, ADDR_MASK,
    PAGE_USER, PAGE_WRITABLE,
};
use crate::pe::{parse_pe, pe_image};
use crate::pmm::{law_allocation, stats};
use crate::space::{law_new_space_ok, place_page, placed, poked_all, space_ok, write_at};
use crate::task::{admitted, first_frame, free_slot, spawn_user, spawned, TaskTable, STACK_SIZE, USER_HEAP_BASE};
use crate::text::same_bytes;
use crate::volume::{content, Place, Volume};
use vstd::prelude::*;
use vstd::slice::slice_to_vec;

verus! {

pub const PAGE_SIZE: u64 = 4096;

pub const USER_STACK_BASE: u64 = 0x0000_0050_0000_0000;

pub const USER_STACK_SIZE: u64 = 0x2_0000;

pub const FLAT_BASE: u64 = 0x0000_0040_0000_0000;

/// A program's file format.
#[derive(Clone, Copy, PartialEq, Eq, Structural, Debug)]
pub enum Format {
    Elf,
    Pe,
    Flat,
}

impl Format {
    /// The format's name.
    pub open spec fn name(self) -> &'static str {
        match self {
            Format::Elf => "ELF64",
            Format::Pe => "PE32+",
            Format::Flat => "flat binary",
        }
    }

    pub fn label(self) -> (r: &'static str)
        ensures
            r == self.name(),
    {
        match self {
            Format::Elf => "ELF64",
            Format::Pe => "PE32+",
            Format::Flat => "flat binary",
        }
    }
}

/// A run of memory that a program is loaded with: `mem_size` bytes at
/// `vaddr`, those from the file first and zeros after.
pub struct Segment {
    pub vaddr: u64,
    pub mem_size: u64,
    pub writable: bool,
    pub file_bytes: Vec<u8>,
}

/// A word of memory that is to hold the address of a named symbol.
pub struct ExternReloc {
    pub target_vaddr: u64,
    pub sym_name: Vec<u8>,
    pub kind: u32,
    pub addend: u64,
}

/// A program file, taken apart.
pub struct Image {
    pub format: Format,
    pub entry: u64,
    pub segments: Vec<Segment>,
    pub relocations: Vec<(u64, u64)>,
    pub extern_relocations: Vec<ExternReloc>,
    pub irelative_relocations: Vec<(u64, u64)>,
    pub needed: Vec<Vec<u8>>,
    pub exports: Vec<(Vec<u8>, u64)>,
    pub phdr_vaddr: u64,
    pub phentsize: u64,
    pub phnum: u64,
    pub interp: Option<Vec<u8>>,
}

pub ghost struct SegmentV {
    pub vaddr: u64,
    pub mem_size: u64,
    pub writable: bool,
    pub bytes: Seq<u8>,
}

pub ghost struct ExternV {
    pub target: u64,
    pub name: Seq<u8>,
    pub kind: u32,
    pub addend: u64,
}

pub ghost struct ImageV {
    pub format: Format,
    pub entry: u64,
    pub segments: Seq<SegmentV>,
    pub relocations: Seq<(u64, u64)>,
    pub externs: Seq<ExternV>,
    pub irelative: Seq<(u64, u64)>,
    pub needed: Seq<Seq<u8>>,
    pub exports: Seq<(Seq<u8>, u64)>,
    pub phdr_vaddr: u64,
    pub phentsize: u64,
    pub phnum: u64,
    pub interp: Option<Seq<u8>>,
}

impl Segment {
    pub open spec fn view(self) -> SegmentV {
        SegmentV {
            vaddr: self.vaddr,
            mem_size: self.mem_size,
            writable: self.writable,
            bytes: self.file_bytes@,
        }
    }
}

impl ExternReloc {
    pub open spec fn view(self) -> ExternV {
        ExternV {
            target: self.target_vaddr,
            name: self.sym_name@,
            kind: self.kind,
            addend: self.addend,
        }
    }
}

pub open spec fn segments_view(s: Seq<Segment>) -> Seq<SegmentV> {
    s.map_values(|x: Segment| x@)
}

pub open spec fn externs_view(s: Seq<ExternReloc>) -> Seq<ExternV> {
    s.map_values(|x: ExternReloc| x@)
}

pub open spec fn names_view(s: Seq<Vec<u8>>) -> Seq<Seq<u8>> {
    s.map_values(|x: Vec<u8>| x@)
}

pub open spec fn exports_view(s: Seq<(Vec<u8>, u64)>) -> Seq<(Seq<u8>, u64)> {
    s.map_values(|x: (Vec<u8>, u64)| (x.0@, x.1))
}

pub open spec fn text_view(s: Option<Vec<u8>>) -> Option<Seq<u8>> {
    match s {
        Some(v) => Some(v@),
        None => None,
    }
}

impl Image {
    pub open spec fn view(self) -> ImageV {
        ImageV {
            format: self.format,
            entry: self.entry,
            segments: segments_view(self.segments@),
            relocations: self.relocations@,
            externs: externs_view(self.extern_relocations@),
            irelative: self.irelative_relocations@,
            needed: names_view(self.needed@),
            exports: exports_view(self.exports@),
            phdr_vaddr: self.phdr_vaddr,
            phentsize: self.phentsize,
            phnum: self.phnum,
            interp: text_view(self.interp),
        }
    }
}

/// The format that a file's first bytes announce; anything unknown is a flat
/// binary.
pub open spec fn format_of(b: Seq<u8>) -> Format {
    if b.len() >= 4 && b[0] == 0x7F && b[1] == 0x45 && b[2] == 0x4C && b[3] == 0x46 {
        Format::Elf
    } else if b.len() >= 2 && b[0] == 0x4D && b[1] == 0x5A {
        Format::Pe
    } else {
        Format::Flat
    }
}

pub fn detect(bytes: &[u8]) -> (r: Format)
    ensures
        r == format_of(bytes@),
{
    if bytes.len() >= 4 && bytes[0] == 0x7F && bytes[1] == 0x45 && bytes[2] == 0x4C && bytes[3] == 0x46 {
        Format::Elf
    } else if bytes.len() >= 2 && bytes[0] == 0x4D && bytes[1] == 0x5A {
        Format::Pe
    } else {
        Format::Flat
    }
}

/// A flat binary is one writable segment that starts with its first
/// instruction.
pub open spec fn flat_image(b: Seq<u8>) -> ImageV {
    ImageV {
        format: Format::Flat,
        entry: FLAT_BASE,
        segments: seq![
            SegmentV { vaddr: FLAT_BASE, mem_size: b.len() as u64, writable: true, bytes: b },
        ],
        relocations: Seq::empty(),
        externs: Seq::empty(),
        irelative: Seq::empty(),
        needed: Seq::empty(),
        exports: Seq::empty(),
        phdr_vaddr: 0,
        phentsize: 0,
        phnum: 0,
        interp: None,
    }
}

pub(crate) fn parse_flat(bytes: &[u8]) -> (r: Image)
    ensures
        r@ == flat_image(bytes@),
{
    let mut segments: Vec<Segment> = Vec::new();
    segments.push(
        Segment {
            vaddr: FLAT_BASE,
            mem_size: bytes.len() as u64,
            writable: true,
            file_bytes: slice_to_vec(bytes),
        },
    );
    let r = Image {
        format: Format::Flat,
        entry: FLAT_BASE,
        segments,
        relocations: Vec::new(),
        extern_relocations: Vec::new(),
        irelative_relocations: Vec::new(),
        needed: Vec::new(),
        exports: Vec::new(),
        phdr_vaddr: 0,
        phentsize: 0,
        phnum: 0,
        interp: None,
    };
    assert(r@.segments =~= flat_image(bytes@).segments);
    assert(r@.externs =~= Seq::empty());
    assert(r@.needed =~= Seq::empty());
    assert(r@.exports =~= Seq::empty());
    r
}

// ---- Mapping ----

/// What page `i` of a segment holds: the bytes from the file that fall into
/// it, and zeros.
pub open spec fn segment_page(seg: SegmentV, i: int) -> Seq<u8> {
    Seq::new(
        4096,
        |k: int|
            {
                let at = 4096 * i + k - seg.vaddr % 4096;
                if 0 <= at < seg.bytes.len() {
                    seg.bytes[at]
                } else {
                    0u8
                }
            },
    )
}

/// How many pages a segment touches.
pub open spec fn segment_pages(seg: SegmentV) -> int {
    (seg.vaddr % 4096 + seg.mem_size + 4095) / 4096
}

pub open spec fn page_address(seg: SegmentV, i: int) -> u64 {
    ((seg.vaddr - seg.vaddr % 4096) as u64).wrapping_add((i as u64).wrapping_mul(4096))
}

pub open spec fn segment_flags(seg: SegmentV) -> u64 {
    if seg.writable {
        PAGE_WRITABLE | PAGE_USER
    } else {
        PAGE_USER
    }
}

pub const NO_ROOM: &'static str = "loader: out of memory mapping a segment";

pub const NO_STACK: &'static str = "loader: out of memory mapping the stack";

pub const UNMAPPED_RELOCATION: &'static str = "loader: relocation target isn't mapped by any segment";

pub const UNMAPPED_STACK: &'static str = "loader: initial stack write target isn't mapped";

/// Memory after the first `n` pages of a segment have been mapped.
pub open spec fn segment_mapped(s: Mem, pml4: u64, seg: SegmentV, n: int) -> (Mem, Result<(), &'static str>)
    decreases n,
{
    if n <= 0 {
        (s, Ok(()))
    } else {
        let (s1, r) = segment_mapped(s, pml4, seg, n - 1);
        match r {
            Err(e) => (s1, Err(e)),
            Ok(_) => placed(
                s1,
                pml4,
                page_address(seg, n - 1),
                segment_flags(seg),
                segment_page(seg, n - 1),
                NO_ROOM,
            ),
        }
    }
}

proof fn lemma_segment_fail(s: Mem, pml4: u64, seg: SegmentV, n: int, m: int)
    requires
        n <= m,
        segment_mapped(s, pml4, seg, n).1 is Err,
    ensures
        segment_mapped(s, pml4, seg, m) == segment_mapped(s, pml4, seg, n),
    decreases m - n,
{
    if n < m && m > 0 {
        lemma_segment_fail(s, pml4, seg, n, m - 1);
    }
}

proof fn lemma_user_flags()
    ensures
        (PAGE_WRITABLE | PAGE_USER) & ADDR_MASK == 0,
        PAGE_USER & ADDR_MASK == 0,
{
    assert((2u64 | 4u64) & 0x000F_FFFF_FFFF_F000u64 == 0) by (bit_vector);
    assert(4u64 & 0x000F_FFFF_FFFF_F000u64 == 0) by (bit_vector);
}

fn page_of(seg: &Segment, i: u64) -> (r: Vec<u8>)
    ensures
        r@ == segment_page(seg@, i as int),
{
    let mut page: Vec<u8> = Vec::new();
    let lead: u128 = (seg.vaddr % 4096) as u128;
    let len: u128 = seg.file_bytes.len() as u128;
    for k in 0..4096usize
        invariant
            lead == seg.vaddr % 4096,
            len == seg.file_bytes@.len() <= usize::MAX,
            page@.len() == k,
            forall|j: int| 0 <= j < k ==> #[trigger] page@[j] == segment_page(seg@, i as int)[j],
    {
        let at: u128 = 4096 * (i as u128) + k as u128;
        if lead <= at && at - lead < len {
            page.push(seg.file_bytes[(at - lead) as usize]);
        } else {
            page.push(0);
        }
    }
    assert(page@ =~= segment_page(seg@, i as int));
    page
}

/// Maps one segment of a program, page by page.
fn map_segment(mem: &mut Memory, pml4: u64, seg: &Segment) -> (r: Result<(), &'static str>)
    requires
        old(mem).wf(),
        space_ok(old(mem)@, pml4),
    ensures
        final(mem).wf(),
        space_ok(final(mem)@, pml4),
        (final(mem)@, r) == segment_mapped(old(mem)@, pml4, seg@, segment_pages(seg@)),
        final(mem).ram.len() == old(mem).ram.len(),
        final(mem).cr3 == old(mem).cr3,
        final(mem).nx == old(mem).nx,
        final(mem).pmm.ready() == old(mem).pmm.ready(),
        final(mem).pmm.offset() == old(mem).pmm.offset(),
{
    let base: u64 = seg.vaddr - seg.vaddr % 4096;
    let pages: u128 = ((seg.vaddr % 4096) as u128 + seg.mem_size as u128 + 4095) / 4096;
    let flags: u64 = if seg.writable {
        PAGE_WRITABLE | PAGE_USER
    } else {
        PAGE_USER
    };
    proof {
        lemma_user_flags();
    }
    let ghost s = mem@;
    let mut i: u64 = 0;
    while (i as u128) < pages
        invariant
            pages == segment_pages(seg@),
            i <= pages <= 0x1000_0000_0000_0001,
            base == seg.vaddr - seg.vaddr % 4096,
            flags == segment_flags(seg@),
            flags & ADDR_MASK == 0,
            s == old(mem)@,
            mem.wf(),
            space_ok(mem@, pml4),
            mem.ram.len() == old(mem).ram.len(),
            mem.cr3 == old(mem).cr3,
            mem.nx == old(mem).nx,
            mem.pmm.ready() == old(mem).pmm.ready(),
            mem.pmm.offset() == old(mem).pmm.offset(),
            segment_mapped(s, pml4, seg@, i as int) == (mem@, Ok::<(), &'static str>(())),
        decreases pages - i,
    {
        proof {
            if segment_mapped(s, pml4, seg@, i + 1).1 is Err {
                lemma_segment_fail(s, pml4, seg@, i + 1, pages as int);
            }
        }
        let page = page_of(seg, i);
        match place_page(mem, pml4, base.wrapping_add(i.wrapping_mul(4096)), flags, page.as_slice(), NO_ROOM) {
            Ok(_) => {},
            Err(e) => {
                return Err(e);
            },
        }
        i += 1;
    }
    Ok(())
}

/// Memory after the first `n` of a list of segments have been mapped.
pub open spec fn segments_mapped(s: Mem, pml4: u64, segs: Seq<SegmentV>, n: int) -> (Mem, Result<(), &'static str>)
    decreases n,
{
    if n <= 0 {
        (s, Ok(()))
    } else {
        let (s1, r) = segments_mapped(s, pml4, segs, n - 1);
        match r {
            Err(e) => (s1, Err(e)),
            Ok(_) => segment_mapped(s1, pml4, segs[n - 1], segment_pages(segs[n - 1])),
        }
    }
}

proof fn lemma_segments_fail(s: Mem, pml4: u64, segs: Seq<SegmentV>, n: int, m: int)
    requires
        n <= m,
        segments_mapped(s, pml4, segs, n).1 is Err,
    ensures
        segments_mapped(s, pml4, segs, m) == segments_mapped(s, pml4, segs, n),
    decreases m - n,
{
    if n < m && m > 0 {
        lemma_segments_fail(s, pml4, segs, n, m - 1);
    }
}

fn map_segments(mem: &mut Memory, pml4: u64, segs: &Vec<Segment>) -> (r: Result<(), &'static str>)
    requires
        old(mem).wf(),
        space_ok(old(mem)@, pml4),
    ensures
        final(mem).wf(),
        space_ok(final(mem)@, pml4),
        (final(mem)@, r) == segments_mapped(old(mem)@, pml4, segments_view(segs@), segs@.len() as int),
        final(mem).ram.len() == old(mem).ram.len(),
        final(mem).cr3 == old(mem).cr3,
        final(mem).nx == old(mem).nx,
        final(mem).pmm.ready() == old(mem).pmm.ready(),
        final(mem).pmm.offset() == old(mem).pmm.offset(),
{
    let n: usize = segs.len();
    let ghost s = mem@;
    let ghost shown = segments_view(segs@);
    for i in 0..n
        invariant
            n == segs@.len(),
            shown == segments_view(segs@),
            s == old(mem)@,
            mem.wf(),
            space_ok(mem@, pml4),
            mem.ram.len() == old(mem).ram.len(),
            mem.cr3 == old(mem).cr3,
            mem.nx == old(mem).nx,
            mem.pmm.ready() == old(mem).pmm.ready(),
            mem.pmm.offset() == old(mem).pmm.offset(),
            segments_mapped(s, pml4, shown, i as int) == (mem@, Ok::<(), &'static str>(())),
    {
        proof {
            if segments_mapped(s, pml4, shown, i + 1).1 is Err {
                lemma_segments_fail(s, pml4, shown, i + 1, n as int);
            }
        }
        match map_segment(mem, pml4, &segs[i]) {
            Ok(_) => {},
            Err(e) => {
                return Err(e);
            },
        }
    }
    Ok(())
}

/// Memory after the first `n` pages of the user stack have been mapped.
pub open spec fn stack_mapped(s: Mem, pml4: u64, n: int) -> (Mem, Result<(), &'static str>)
    decreases n,
{
    if n <= 0 {
        (s, Ok(()))
    } else {
        let (s1, r) = stack_mapped(s, pml4, n - 1);
        match r {
            Err(e) => (s1, Err(e)),
            Ok(_) => placed(
                s1,
                pml4,
                (USER_STACK_BASE + (n - 1) * PAGE_SIZE) as u64,
                PAGE_WRITABLE | PAGE_USER,
                Seq::empty(),
                NO_STACK,
            ),
        }
    }
}

proof fn lemma_stack_fail(s: Mem, pml4: u64, n: int, m: int)
    requires
        n <= m,
        stack_mapped(s, pml4, n).1 is Err,
    ensures
        stack_mapped(s, pml4, m) == stack_mapped(s, pml4, n),
    decreases m - n,
{
    if n < m && m > 0 {
        lemma_stack_fail(s, pml4, n, m - 1);
    }
}

fn map_stack(mem: &mut Memory, pml4: u64) -> (r: Result<(), &'static str>)
    requires
        old(mem).wf(),
        space_ok(old(mem)@, pml4),
    ensures
        final(mem).wf(),
        space_ok(final(mem)@, pml4),
        (final(mem)@, r) == stack_mapped(old(mem)@, pml4, 32),
        final(mem).ram.len() == old(mem).ram.len(),
        final(mem).cr3 == old(mem).cr3,
        final(mem).nx == old(mem).nx,
        final(mem).pmm.ready() == old(mem).pmm.ready(),
        final(mem).pmm.offset() == old(mem).pmm.offset(),
{
    let ghost s = mem@;
    let empty: Vec<u8> = Vec::new();
    assert(empty@ =~= Seq::empty());
    proof {
        lemma_user_flags();
    }
    for i in 0..32u64
        invariant
            empty@ == Seq::<u8>::empty(),
            (PAGE_WRITABLE | PAGE_USER) & ADDR_MASK == 0,
            s == old(mem)@,
            mem.wf(),
            space_ok(mem@, pml4),
            mem.ram.len() == old(mem).ram.len(),
            mem.cr3 == old(mem).cr3,
            mem.nx == old(mem).nx,
            mem.pmm.ready() == old(mem).pmm.ready(),
            mem.pmm.offset() == old(mem).pmm.offset(),
            stack_mapped(s, pml4, i as int) == (mem@, Ok::<(), &'static str>(())),
    {
        proof {
            if stack_mapped(s, pml4, i + 1).1 is Err {
                lemma_stack_fail(s, pml4, i + 1, 32);
            }
        }
        match place_page(
            mem,
            pml4,
            USER_STACK_BASE + i * PAGE_SIZE,
            PAGE_WRITABLE | PAGE_USER,
            empty.as_slice(),
            NO_STACK,
        ) {
            Ok(_) => {},
            Err(e) => {
                return Err(e);
            },
        }
    }
    Ok(())
}

// ---- Relocations ----

/// Memory after writing a word at the address `a` of an address space. A word
/// that spans two pages goes to both, wherever their frames are.
pub open spec fn word_written(ram: Seq<u64>, pml4: u64, a: u64, value: u64) -> (Seq<u64>, Result<(), &'static str>) {
    poked_all(ram, pml4, a, bytes64(value), UNMAPPED_RELOCATION, 8)
}

fn write_u64_at(mem: &mut Memory, pml4: u64, target_vaddr: u64, value: u64) -> (r: Result<(), &'static str>)
    requires
        old(mem).wf(),
        space_ok(old(mem)@, pml4),
    ensures
        final(mem).wf(),
        space_ok(final(mem)@, pml4),
        (final(mem).ram@, r) == word_written(old(mem).ram@, pml4, target_vaddr, value),
        final(mem).ram.len() == old(mem).ram.len(),
        final(mem).pmm == old(mem).pmm,
        final(mem).cr3 == old(mem).cr3,
        final(mem).nx == old(mem).nx,
{
    let mut bytes: Vec<u8> = Vec::new();
    put64(&mut bytes, value);
    assert(bytes@ =~= bytes64(value));
    write_at(mem, pml4, target_vaddr, bytes.as_slice(), UNMAPPED_RELOCATION)
}

fn write_bytes_at(mem: &mut Memory, pml4: u64, target_vaddr: u64, data: &[u8]) -> (r: Result<(), &'static str>)
    requires
        old(mem).wf(),
        space_ok(old(mem)@, pml4),
    ensures
        final(mem).wf(),
        space_ok(final(mem)@, pml4),
        (final(mem).ram@, r) == poked_all(
            old(mem).ram@,
            pml4,
            target_vaddr,
            data@,
            UNMAPPED_STACK,
            data@.len() as int,
        ),
        final(mem).ram.len() == old(mem).ram.len(),
        final(mem).pmm == old(mem).pmm,
        final(mem).cr3 == old(mem).cr3,
        final(mem).nx == old(mem).nx,
{
    write_at(mem, pml4, target_vaddr, data, UNMAPPED_STACK)
}

/// Memory after the first `n` of a list of words have been written to their
/// places.
pub open spec fn relocated(ram: Seq<u64>, pml4: u64, relocations: Seq<(u64, u64)>, n: int) -> (
    Seq<u64>,
    Result<(), &'static str>,
)
    decreases n,
{
    if n <= 0 {
        (ram, Ok(()))
    } else {
        let (before, r) = relocated(ram, pml4, relocations, n - 1);
        match r {
            Err(e) => (before, Err(e)),
            Ok(_) => word_written(before, pml4, relocations[n - 1].0, relocations[n - 1].1),
        }
    }
}

proof fn lemma_relocated_fail(ram: Seq<u64>, pml4: u64, relocations: Seq<(u64, u64)>, n: int, m: int)
    requires
        n <= m,
        relocated(ram, pml4, relocations, n).1 is Err,
    ensures
        relocated(ram, pml4, relocations, m) == relocated(ram, pml4, relocations, n),
    decreases m - n,
{
    if n < m && m > 0 {
        lemma_relocated_fail(ram, pml4, relocations, n, m - 1);
    }
}

fn relocate(mem: &mut Memory, pml4: u64, relocations: &Vec<(u64, u64)>) -> (r: Result<(), &'static str>)
    requires
        old(mem).wf(),
        space_ok(old(mem)@, pml4),
    ensures
        final(mem).wf(),
        space_ok(final(mem)@, pml4),
        (final(mem).ram@, r) == relocated(old(mem).ram@, pml4, relocations@, relocations@.len() as int),
        final(mem).ram.len() == old(mem).ram.len(),
        final(mem).pmm == old(mem).pmm,
        final(mem).cr3 == old(mem).cr3,
        final(mem).nx == old(mem).nx,
{
    let n: usize = relocations.len();
    let ghost ram = mem.ram@;
    for i in 0..n
        invariant
            n == relocations@.len(),
            ram == old(mem).ram@,
            mem.wf(),
            space_ok(mem@, pml4),
            mem.ram.len() == old(mem).ram.len(),
            mem.pmm == old(mem).pmm,
            mem.cr3 == old(mem).cr3,
            mem.nx == old(mem).nx,
            relocated(ram, pml4, relocations@, i as int) == (mem.ram@, Ok::<(), &'static str>(())),
    {
        proof {
            if relocated(ram, pml4, relocations@, i + 1).1 is Err {
                lemma_relocated_fail(ram, pml4, relocations@, i + 1, n as int);
            }
        }
        match write_u64_at(mem, pml4, relocations[i].0, relocations[i].1) {
            Ok(_) => {},
            Err(e) => {
                return Err(e);
            },
        }
    }
    Ok(())
}

/// The address of a symbol: of several with its name, the last one listed.
pub open spec fn symbol_address(exports: Seq<(Seq<u8>, u64)>, name: Seq<u8>) -> Option<u64>
    decreases exports.len(),
{
    if exports.len() == 0 {
        None
    } else if exports.last().0 == name {
        Some(exports.last().1)
    } else {
        symbol_address(exports.drop_last(), name)
    }
}

pub const UNDEFINED: &'static str = "loader: undefined symbol -- a DT_NEEDED library doesn't export something this file needs";

/// What a place that refers to a symbol is to hold.
pub open spec fn resolved_value(x: ExternV, address: u64) -> u64 {
    if x.kind == R_X86_64_64 {
        address.wrapping_add(x.addend)
    } else {
        address
    }
}

/// Memory after the first `n` of a list of references to symbols have been
/// filled in.
pub open spec fn linked(ram: Seq<u64>, pml4: u64, externs: Seq<ExternV>, exports: Seq<(Seq<u8>, u64)>, n: int) -> (
    Seq<u64>,
    Result<(), &'static str>,
)
    decreases n,
{
    if n <= 0 {
        (ram, Ok(()))
    } else {
        let (before, r) = linked(ram, pml4, externs, exports, n - 1);
        match (r, symbol_address(exports, externs[n - 1].name)) {
            (Err(e), _) => (before, Err(e)),
            (Ok(_), None) => (before, Err(UNDEFINED)),
            (Ok(_), Some(a)) => word_written(
                before,
                pml4,
                externs[n - 1].target,
                resolved_value(externs[n - 1], a),
            ),
        }
    }
}

proof fn lemma_linked_fail(
    ram: Seq<u64>,
    pml4: u64,
    externs: Seq<ExternV>,
    exports: Seq<(Seq<u8>, u64)>,
    n: int,
    m: int,
)
    requires
        n <= m,
        linked(ram, pml4, externs, exports, n).1 is Err,
    ensures
        linked(ram, pml4, externs, exports, m) == linked(ram, pml4, externs, exports, n),
    decreases m - n,
{
    if n < m && m > 0 {
        lemma_linked_fail(ram, pml4, externs, exports, n, m - 1);
    }
}

fn find_symbol(exports: &Vec<(Vec<u8>, u64)>, name: &[u8]) -> (r: Option<u64>)
    ensures
        r == symbol_address(exports_view(exports@), name@),
{
    let ghost shown = exports_view(exports@);
    let mut n: usize = exports.len();
    assert(shown.take(n as int) =~= shown);
    while n > 0
        invariant
            n <= exports@.len(),
            shown == exports_view(exports@),
            symbol_address(shown, name@) == symbol_address(shown.take(n as int), name@),
        decreases n,
    {
        n -= 1;
        proof {
            assert(shown.take(n + 1).drop_last() =~= shown.take(n as int));
            assert(shown.take(n + 1).last() == shown[n as int]);
        }
        if same_bytes(exports[n].0.as_slice(), name) {
            return Some(exports[n].1);
        }
    }
    assert(shown.take(0) =~= Seq::empty());
    None
}

fn link_externs(mem: &mut Memory, pml4: u64, externs: &Vec<ExternReloc>, exports: &Vec<(Vec<u8>, u64)>) -> (r: Result<
    (),
    &'static str,
>)
    requires
        old(mem).wf(),
        space_ok(old(mem)@, pml4),
    ensures
        final(mem).wf(),
        space_ok(final(mem)@, pml4),
        (final(mem).ram@, r) == linked(
            old(mem).ram@,
            pml4,
            externs_view(externs@),
            exports_view(exports@),
            externs@.len() as int,
        ),
        final(mem).ram.len() == old(mem).ram.len(),
        final(mem).pmm == old(mem).pmm,
        final(mem).cr3 == old(mem).cr3,
        final(mem).nx == old(mem).nx,
{
    let n: usize = externs.len();
    let ghost ram = mem.ram@;
    let ghost xs = externs_view(externs@);
    let ghost names = exports_view(exports@);
    for i in 0..n
        invariant
            n == externs@.len(),
            xs == externs_view(externs@),
            names == exports_view(exports@),
            ram == old(mem).ram@,
            mem.wf(),
            space_ok(mem@, pml4),
            mem.ram.len() == old(mem).ram.len(),
            mem.pmm == old(mem).pmm,
            mem.cr3 == old(mem).cr3,
            mem.nx == old(mem).nx,
            linked(ram, pml4, xs, names, i as int) == (mem.ram@, Ok::<(), &'static str>(())),
    {
        proof {
            if linked(ram, pml4, xs, names, i + 1).1 is Err {
                lemma_linked_fail(ram, pml4, xs, names, i + 1, n as int);
            }
        }
        let x = &externs[i];
        let address: u64 = match find_symbol(exports, x.sym_name.as_slice()) {
            Some(a) => a,
            None => {
                return Err(UNDEFINED);
            },
        };
        let value: u64 = if x.kind == R_X86_64_64 {
            address.wrapping_add(x.addend)
        } else {
            address
        };
        match write_u64_at(mem, pml4, x.target_vaddr, value) {
            Ok(_) => {},
            Err(e) => {
                return Err(e);
            },
        }
    }
    Ok(())
}

// ---- The initial stack ----

/// Memory after the first `n` of a list of strings, each with a zero byte
/// behind it, have been written below `cursor`, one below the other; with
/// where the last one went, and where each did.
pub open spec fn strings_written(ram: Seq<u64>, pml4: u64, cursor: u64, strings: Seq<Seq<u8>>, n: int) -> (
    Seq<u64>,
    Result<(u64, Seq<u64>), &'static str>,
)
    decreases n,
{
    if n <= 0 {
        (ram, Ok((cursor, Seq::empty())))
    } else {
        let (before, r) = strings_written(ram, pml4, cursor, strings, n - 1);
        match r {
            Err(e) => (before, Err(e)),
            Ok((c, addrs)) => {
                let text = strings[n - 1].push(0);
                let at = c.wrapping_sub(text.len() as u64);
                match poked_all(before, pml4, at, text, UNMAPPED_STACK, text.len() as int) {
                    (after, Err(e)) => (after, Err(e)),
                    (after, Ok(_)) => (after, Ok((at, addrs.push(at)))),
                }
            },
        }
    }
}

proof fn lemma_strings_fail(ram: Seq<u64>, pml4: u64, cursor: u64, strings: Seq<Seq<u8>>, n: int, m: int)
    requires
        n <= m,
        strings_written(ram, pml4, cursor, strings, n).1 is Err,
    ensures
        strings_written(ram, pml4, cursor, strings, m) == strings_written(ram, pml4, cursor, strings, n),
    decreases m - n,
{
    if n < m && m > 0 {
        lemma_strings_fail(ram, pml4, cursor, strings, n, m - 1);
    }
}

fn write_strings(mem: &mut Memory, pml4: u64, cursor: u64, strings: &Vec<Vec<u8>>) -> (r: Result<
    (u64, Vec<u64>),
    &'static str,
>)
    requires
        old(mem).wf(),
        space_ok(old(mem)@, pml4),
    ensures
        final(mem).wf(),
        space_ok(final(mem)@, pml4),
        ({
            let (ram, x) = strings_written(
                old(mem).ram@,
                pml4,
                cursor,
                names_view(strings@),
                strings@.len() as int,
            );
            &&& final(mem).ram@ == ram
            &&& match x {
                Ok((c, addrs)) => r matches Ok((d, v)) && d == c && v@ == addrs && v@.len() == strings@.len(),
                Err(e) => r matches Err(y) && y == e,
            }
        }),
        final(mem).ram.len() == old(mem).ram.len(),
        final(mem).pmm == old(mem).pmm,
        final(mem).cr3 == old(mem).cr3,
        final(mem).nx == old(mem).nx,
{
    let n: usize = strings.len();
    let ghost ram = mem.ram@;
    let ghost shown = names_view(strings@);
    let mut at: u64 = cursor;
    let mut addrs: Vec<u64> = Vec::new();
    for i in 0..n
        invariant
            n == strings@.len(),
            shown == names_view(strings@),
            ram == old(mem).ram@,
            mem.wf(),
            space_ok(mem@, pml4),
            mem.ram.len() == old(mem).ram.len(),
            mem.pmm == old(mem).pmm,
            mem.cr3 == old(mem).cr3,
            mem.nx == old(mem).nx,
            addrs@.len() == i,
            strings_written(ram, pml4, cursor, shown, i as int) == (
                mem.ram@,
                Ok::<(u64, Seq<u64>), &'static str>((at, addrs@)),
            ),
    {
        proof {
            if strings_written(ram, pml4, cursor, shown, i + 1).1 is Err {
                lemma_strings_fail(ram, pml4, cursor, shown, i + 1, n as int);
            }
        }
        let mut text: Vec<u8> = slice_to_vec(strings[i].as_slice());
        text.push(0);
        assert(text@ =~= shown[i as int].push(0));
        at = at.wrapping_sub(text.len() as u64);
        match write_bytes_at(mem, pml4, at, text.as_slice()) {
            Ok(_) => {},
            Err(e) => {
                return Err(e);
            },
        }
        addrs.push(at);
    }
    Ok((at, addrs))
}

/// The sixteen bytes that a program is given to seed its stack protector.
#[verifier::opaque]
pub open spec fn seed() -> Seq<u8> {
    seq![
        0xA5u8, 0x3C, 0x91, 0x7E, 0x0F, 0xD2, 0x44, 0x88, 0x19, 0x2B, 0x6C, 0x77, 0xEE, 0x55, 0x33, 0x01,
    ]
}

/// The auxiliary vector: what the program is told about itself.
#[verifier::opaque]
pub open spec fn auxv(image: ImageV, at_base: u64, random: u64) -> Seq<u64> {
    seq![
        AT_PHDR, image.phdr_vaddr,
        AT_PHENT, image.phentsize,
        AT_PHNUM, image.phnum,
        AT_PAGESZ, PAGE_SIZE,
        AT_BASE, at_base,
        AT_FLAGS, 0,
        AT_ENTRY, image.entry,
        AT_UID, 0,
        AT_EUID, 0,
        AT_GID, 0,
        AT_EGID, 0,
        AT_SECURE, 0,
        AT_RANDOM, random,
        AT_NULL, 0,
    ]
}

pub const AT_NULL: u64 = 0;

pub const AT_PHDR: u64 = 3;

pub const AT_PHENT: u64 = 4;

pub const AT_PHNUM: u64 = 5;

pub const AT_PAGESZ: u64 = 6;

pub const AT_BASE: u64 = 7;

pub const AT_FLAGS: u64 = 8;

pub const AT_ENTRY: u64 = 9;

pub const AT_UID: u64 = 11;

pub const AT_EUID: u64 = 12;

pub const AT_GID: u64 = 13;

pub const AT_EGID: u64 = 14;

pub const AT_SECURE: u64 = 23;

pub const AT_RANDOM: u64 = 25;

/// The words that a program finds at its stack pointer: how many arguments it
/// has, where they are, where its environment is, and the auxiliary vector.
pub open spec fn start_words(argv: Seq<u64>, envp: Seq<u64>, aux: Seq<u64>) -> Seq<u64> {
    seq![argv.len() as u64] + argv + seq![0u64] + envp + seq![0u64] + aux
}

/// The bytes of a run of words.
pub open spec fn word_bytes(words: Seq<u64>) -> Seq<u8>
    decreases words.len(),
{
    if words.len() == 0 {
        Seq::empty()
    } else {
        word_bytes(words.drop_last()) + bytes64(words.last())
    }
}

/// The nearest multiple of 16 at or below `a`.
pub open spec fn down16(a: u64) -> u64 {
    (a - a % 16) as u64
}

/// Memory after the random bytes and the start words have been put below the
/// strings, which end at `c`, and the stack pointer.
#[verifier::opaque]
pub open spec fn stack_finished(
    ram: Seq<u64>,
    pml4: u64,
    c: u64,
    args: Seq<u64>,
    vars: Seq<u64>,
    image: ImageV,
    at_base: u64,
) -> (Seq<u64>, Result<u64, &'static str>) {
    let random = down16(c.wrapping_sub(16));
    match poked_all(ram, pml4, random, seed(), UNMAPPED_STACK, 16) {
        (r1, Err(e)) => (r1, Err(e)),
        (r1, Ok(_)) => {
            let words = start_words(args, vars, auxv(image, at_base, random));
            let sp = down16(random.wrapping_sub((words.len() as u64).wrapping_mul(8)));
            let bytes = word_bytes(words);
            match poked_all(r1, pml4, sp, bytes, UNMAPPED_RELOCATION, bytes.len() as int) {
                (r2, Err(e)) => (r2, Err(e)),
                (r2, Ok(_)) => (r2, Ok(sp)),
            }
        },
    }
}

/// Memory after a program's stack has been set up below `top`, and the stack
/// pointer that the program starts with.
pub open spec fn initial_stack(
    ram: Seq<u64>,
    pml4: u64,
    top: u64,
    argv: Seq<Seq<u8>>,
    envp: Seq<Seq<u8>>,
    image: ImageV,
    at_base: u64,
) -> (Seq<u64>, Result<u64, &'static str>) {
    match strings_written(ram, pml4, top, argv, argv.len() as int) {
        (r1, Err(e)) => (r1, Err(e)),
        (r1, Ok((c1, args))) => match strings_written(r1, pml4, c1, envp, envp.len() as int) {
            (r2, Err(e)) => (r2, Err(e)),
            (r2, Ok((c2, vars))) => stack_finished(r2, pml4, c2, args, vars, image, at_base),
        },
    }
}

/// The words of the auxiliary vector.
fn aux_words(image: &Image, at_base: u64, random: u64) -> (r: Vec<u64>)
    ensures
        r@ == auxv(image@, at_base, random),
{
    let r: Vec<u64> = vec![
        AT_PHDR, image.phdr_vaddr,
        AT_PHENT, image.phentsize,
        AT_PHNUM, image.phnum,
        AT_PAGESZ, PAGE_SIZE,
        AT_BASE, at_base,
        AT_FLAGS, 0,
        AT_ENTRY, image.entry,
        AT_UID, 0,
        AT_EUID, 0,
        AT_GID, 0,
        AT_EGID, 0,
        AT_SECURE, 0,
        AT_RANDOM, random,
        AT_NULL, 0,
    ];
    assert(r@ =~= auxv(image@, at_base, random)) by {
        reveal(auxv);
    }
    r
}

fn seed_bytes() -> (r: Vec<u8>)
    ensures
        r@ == seed(),
        r@.len() == 16,
{
    let r: Vec<u8> = vec![
        0xA5u8, 0x3C, 0x91, 0x7E, 0x0F, 0xD2, 0x44, 0x88, 0x19, 0x2B, 0x6C, 0x77, 0xEE, 0x55, 0x33, 0x01,
    ];
    assert(r@ =~= seed()) by {
        reveal(seed);
    }
    r
}

fn push_words(out: &mut Vec<u64>, words: &Vec<u64>)
    ensures
        final(out)@ == old(out)@ + words@,
{
    let ghost before = out@;
    let n: usize = words.len();
    for i in 0..n
        invariant
            n == words@.len(),
            out@ == before + words@.take(i as int),
    {
        out.push(words[i]);
        assert(out@ =~= before + words@.take(i + 1));
    }
    assert(words@.take(n as int) =~= words@);
}

fn bytes_of(words: &Vec<u64>) -> (r: Vec<u8>)
    ensures
        r@ == word_bytes(words@),
{
    let mut out: Vec<u8> = Vec::new();
    let n: usize = words.len();
    assert(words@.take(0) =~= Seq::empty());
    for i in 0..n
        invariant
            n == words@.len(),
            out@ == word_bytes(words@.take(i as int)),
    {
        assert(words@.take(i + 1).drop_last() =~= words@.take(i as int));
        put64(&mut out, words[i]);
    }
    assert(words@.take(n as int) =~= words@);
    out
}

fn start_vector(args: &Vec<u64>, vars: &Vec<u64>, image: &Image, at_base: u64, random: u64) -> (r: Vec<u64>)
    ensures
        r@ == start_words(args@, vars@, auxv(image@, at_base, random)),
{
    let mut words: Vec<u64> = Vec::new();
    words.push(args.len() as u64);
    push_words(&mut words, args);
    words.push(0);
    push_words(&mut words, vars);
    words.push(0);
    let aux = aux_words(image, at_base, random);
    push_words(&mut words, &aux);
    assert(words@ =~= start_words(args@, vars@, auxv(image@, at_base, random)));
    words
}

/// Puts the random bytes and the start words below the strings.
#[verifier::spinoff_prover]
#[verifier::rlimit(40)]
fn finish_stack(
    mem: &mut Memory,
    pml4: u64,
    c: u64,
    args: &Vec<u64>,
    vars: &Vec<u64>,
    image: &Image,
    at_base: u64,
) -> (r: Result<u64, &'static str>)
    requires
        old(mem).wf(),
        space_ok(old(mem)@, pml4),
    ensures
        final(mem).wf(),
        space_ok(final(mem)@, pml4),
        (final(mem).ram@, r) == stack_finished(old(mem).ram@, pml4, c, args@, vars@, image@, at_base),
        r matches Ok(sp) ==> sp % 16 == 0,
        final(mem).ram.len() == old(mem).ram.len(),
        final(mem).pmm == old(mem).pmm,
        final(mem).cr3 == old(mem).cr3,
        final(mem).nx == old(mem).nx,
{
    proof {
        reveal(stack_finished);
    }
    let below: u64 = c.wrapping_sub(16);
    let random: u64 = below - below % 16;
    let seed_text = seed_bytes();
    match write_bytes_at(mem, pml4, random, seed_text.as_slice()) {
        Ok(_) => {},
        Err(e) => {
            return Err(e);
        },
    }
    let words = start_vector(args, vars, image, at_base, random);
    let under: u64 = random.wrapping_sub((words.len() as u64).wrapping_mul(8));
    let sp: u64 = under - under % 16;
    let bytes = bytes_of(&words);
    match write_at(mem, pml4, sp, bytes.as_slice(), UNMAPPED_RELOCATION) {
        Ok(_) => {},
        Err(e) => {
            return Err(e);
        },
    }
    Ok(sp)
}

/// Sets up a program's stack below `stack_top`: its arguments, its
/// environment and the auxiliary vector. Returns the stack pointer that it
/// starts with, a multiple of 16, at which the number of arguments stands.
#[verifier::spinoff_prover]
fn build_initial_stack(
    mem: &mut Memory,
    pml4: u64,
    stack_top: u64,
    argv: &Vec<Vec<u8>>,
    envp: &Vec<Vec<u8>>,
    image: &Image,
    at_base: u64,
) -> (r: Result<u64, &'static str>)
    requires
        old(mem).wf(),
        space_ok(old(mem)@, pml4),
    ensures
        final(mem).wf(),
        space_ok(final(mem)@, pml4),
        (final(mem).ram@, r) == initial_stack(
            old(mem).ram@,
            pml4,
            stack_top,
            names_view(argv@),
            names_view(envp@),
            image@,
            at_base,
        ),
        r matches Ok(sp) ==> sp % 16 == 0,
        final(mem).ram.len() == old(mem).ram.len(),
        final(mem).pmm == old(mem).pmm,
        final(mem).cr3 == old(mem).cr3,
        final(mem).nx == old(mem).nx,
{
    let (c1, args) = match write_strings(mem, pml4, stack_top, argv) {
        Ok(x) => x,
        Err(e) => {
            return Err(e);
        },
    };
    let (c2, vars) = match write_strings(mem, pml4, c1, envp) {
        Ok(x) => x,
        Err(e) => {
            return Err(e);
        },
    };
    finish_stack(mem, pml4, c2, &args, &vars, image, at_base)
}

// ---- Loading whole programs ----

pub const LIB_BASE: u64 = 0x0000_0044_0000_0000;

pub const LIB_SLOT_SIZE: u64 = 0x1000_0000;

pub const MAX_LIBS: usize = 8;

pub const INTERP_BASE: u64 = 0x0000_0046_0000_0000;

pub const NEEDS_IFUNC: &'static str = "loader: this file needs GNU IFUNC resolver calls (R_X86_64_IRELATIVE), which KonjacOS's eager loader can't perform yet";

/// A program file, taken apart, whatever its format.
pub open spec fn program_image(b: Seq<u8>) -> Result<ImageV, &'static str> {
    match format_of(b) {
        Format::Elf => elf_image(b, None),
        Format::Pe => pe_image(b),
        Format::Flat => Ok(flat_image(b)),
    }
}

fn parse_program(bytes: &[u8]) -> (r: Result<Image, &'static str>)
    ensures
        match program_image(bytes@) {
            Ok(x) => r matches Ok(i) && i@ == x,
            Err(e) => r matches Err(y) && y == e,
        },
{
    match detect(bytes) {
        Format::Elf => parse_elf(bytes),
        Format::Pe => parse_pe(bytes),
        Format::Flat => Ok(parse_flat(bytes)),
    }
}

/// What is to be loaded to run a program: the files, the program itself
/// first; whether they are linked before it starts, or by an interpreter that
/// comes second; where that is loaded; and where to start.
pub ghost struct PlanV {
    pub images: Seq<ImageV>,
    pub eager: bool,
    pub at_base: u64,
    pub entry: u64,
}

pub struct Plan {
    pub images: Vec<Image>,
    pub eager: bool,
    pub at_base: u64,
    pub entry: u64,
}

pub open spec fn images_view(s: Seq<Image>) -> Seq<ImageV> {
    s.map_values(|x: Image| x@)
}

impl Plan {
    pub open spec fn view(self) -> PlanV {
        PlanV {
            images: images_view(self.images@),
            eager: self.eager,
            at_base: self.at_base,
            entry: self.entry,
        }
    }
}

/// The first `n` of the libraries that a program needs, each at a place of
/// its own.
pub open spec fn libraries(v: Volume, at: Place, needed: Seq<Seq<u8>>, n: int) -> Result<Seq<ImageV>, &'static str>
    decreases n,
{
    if n <= 0 {
        Ok(Seq::empty())
    } else {
        match libraries(v, at, needed, n - 1) {
            Err(e) => Err(e),
            Ok(before) => match content(v, at, needed[n - 1]) {
                Err(_) => Err("loader: couldn't find a DT_NEEDED shared library on disk"),
                Ok(b) => if format_of(b) != Format::Elf {
                    Err("loader: a DT_NEEDED dependency isn't an ELF shared library")
                } else {
                    match elf_image(b, Some((LIB_BASE + (n - 1) * LIB_SLOT_SIZE) as u64)) {
                        Err(e) => Err(e),
                        Ok(i) => Ok(before.push(i)),
                    }
                },
            },
        }
    }
}

proof fn lemma_libraries_fail(v: Volume, at: Place, needed: Seq<Seq<u8>>, n: int, m: int)
    requires
        n <= m,
        libraries(v, at, needed, n) is Err,
    ensures
        libraries(v, at, needed, m) == libraries(v, at, needed, n),
    decreases m - n,
{
    if n < m && m > 0 {
        lemma_libraries_fail(v, at, needed, n, m - 1);
    }
}

/// What is to be loaded to run the program that a file holds.
pub open spec fn planned(v: Volume, at: Place, bytes: Seq<u8>) -> Result<PlanV, &'static str> {
    match program_image(bytes) {
        Err(e) => Err(e),
        Ok(image) => match image.interp {
            Some(path) => match content(v, at, path) {
                Err(_) => Err("loader: couldn't find this program's PT_INTERP dynamic linker on disk"),
                Ok(b) => if format_of(b) != Format::Elf {
                    Err("loader: this program's PT_INTERP dynamic linker isn't an ELF file")
                } else {
                    match elf_image(b, Some(INTERP_BASE)) {
                        Err(e) => Err(e),
                        Ok(x) => Ok(
                            PlanV {
                                images: seq![image].push(x),
                                eager: false,
                                at_base: INTERP_BASE,
                                entry: x.entry,
                            },
                        ),
                    }
                },
            },
            None => if image.needed.len() > MAX_LIBS {
                Err(
                    "loader: this program depends on more shared libraries than KonjacOS's loader supports at once",
                )
            } else {
                match libraries(v, at, image.needed, image.needed.len() as int) {
                    Err(e) => Err(e),
                    Ok(libs) => Ok(
                        PlanV { images: seq![image] + libs, eager: true, at_base: 0, entry: image.entry },
                    ),
                }
            },
        },
    }
}

/// Reads the libraries that a program needs.
fn find_libraries(fs: &mut Fs, needed: &Vec<Vec<u8>>) -> (r: Result<Vec<Image>, &'static str>)
    requires
        old(fs).wf(),
        needed@.len() <= MAX_LIBS,
    ensures
        final(fs).wf(),
        final(fs).only_read(*old(fs)),
        match libraries(old(fs).volume(), old(fs).place(), names_view(needed@), needed@.len() as int) {
            Ok(x) => r matches Ok(v) && images_view(v@) == x,
            Err(e) => r matches Err(y) && y == e,
        },
{
    let n: usize = needed.len();
    let ghost v = fs.volume();
    let ghost at = fs.place();
    let ghost names = names_view(needed@);
    let mut libs: Vec<Image> = Vec::new();
    assert(images_view(libs@) =~= Seq::empty());
    for i in 0..n
        invariant
            n == needed@.len(),
            n <= MAX_LIBS,
            names == names_view(needed@),
            fs.wf(),
            fs.only_read(*old(fs)),
            v == old(fs).volume(),
            at == old(fs).place(),
            libraries(v, at, names, i as int) == Ok::<Seq<ImageV>, &'static str>(images_view(libs@)),
    {
        proof {
            if libraries(v, at, names, i + 1) is Err {
                lemma_libraries_fail(v, at, names, i + 1, n as int);
            }
        }
        let b = match read_file(fs, needed[i].as_slice()) {
            Ok(b) => b,
            Err(_) => {
                return Err("loader: couldn't find a DT_NEEDED shared library on disk");
            },
        };
        if detect(b.as_slice()) != Format::Elf {
            return Err("loader: a DT_NEEDED dependency isn't an ELF shared library");
        }
        let bias: u64 = LIB_BASE + (i as u64) * LIB_SLOT_SIZE;
        match parse_elf_at(b.as_slice(), Some(bias)) {
            Ok(x) => {
                let ghost was = libs@;
                let ghost shown = x@;
                libs.push(x);
                assert(images_view(libs@) =~= images_view(was).push(shown));
            },
            Err(e) => {
                return Err(e);
            },
        }
    }
    Ok(libs)
}

/// Takes a program apart and finds what else is to be loaded to run it.
fn plan(fs: &mut Fs, bytes: &[u8]) -> (r: Result<Plan, &'static str>)
    requires
        old(fs).wf(),
    ensures
        final(fs).wf(),
        final(fs).only_read(*old(fs)),
        match planned(old(fs).volume(), old(fs).place(), bytes@) {
            Ok(p) => r matches Ok(x) && x@ == p && p.images.len() > 0,
            Err(e) => r matches Err(y) && y == e,
        },
{
    let image = match parse_program(bytes) {
        Ok(i) => i,
        Err(e) => {
            return Err(e);
        },
    };
    let ghost main = image@;
    let entry: u64 = image.entry;
    let mut images: Vec<Image> = Vec::new();
    if let Some(path) = &image.interp {
        let b = match read_file(fs, path.as_slice()) {
            Ok(b) => b,
            Err(_) => {
                return Err("loader: couldn't find this program's PT_INTERP dynamic linker on disk");
            },
        };
        if detect(b.as_slice()) != Format::Elf {
            return Err("loader: this program's PT_INTERP dynamic linker isn't an ELF file");
        }
        let x = match parse_elf_at(b.as_slice(), Some(INTERP_BASE)) {
            Ok(x) => x,
            Err(e) => {
                return Err(e);
            },
        };
        let start: u64 = x.entry;
        let ghost second = x@;
        images.push(image);
        images.push(x);
        assert(images_view(images@) =~= seq![main].push(second));
        return Ok(Plan { images, eager: false, at_base: INTERP_BASE, entry: start });
    }
    let n: usize = image.needed.len();
    if n > MAX_LIBS {
        return Err(
            "loader: this program depends on more shared libraries than KonjacOS's loader supports at once",
        );
    }
    let mut libs = match find_libraries(fs, &image.needed) {
        Ok(libs) => libs,
        Err(e) => {
            return Err(e);
        },
    };
    let ghost found = images_view(libs@);
    images.push(image);
    images.append(&mut libs);
    assert(images_view(images@) =~= seq![main] + found);
    Ok(Plan { images, eager: true, at_base: 0, entry })
}

/// Memory after the segments of the first `n` files have been mapped.
pub open spec fn files_mapped(s: Mem, pml4: u64, images: Seq<ImageV>, n: int) -> (Mem, Result<(), &'static str>)
    decreases n,
{
    if n <= 0 {
        (s, Ok(()))
    } else {
        let (s1, r) = files_mapped(s, pml4, images, n - 1);
        match r {
            Err(e) => (s1, Err(e)),
            Ok(_) => segments_mapped(
                s1,
                pml4,
                images[n - 1].segments,
                images[n - 1].segments.len() as int,
            ),
        }
    }
}

/// Memory after the first `n` files have been relocated.
pub open spec fn files_relocated(ram: Seq<u64>, pml4: u64, images: Seq<ImageV>, n: int) -> (
    Seq<u64>,
    Result<(), &'static str>,
)
    decreases n,
{
    if n <= 0 {
        (ram, Ok(()))
    } else {
        let (before, r) = files_relocated(ram, pml4, images, n - 1);
        match r {
            Err(e) => (before, Err(e)),
            Ok(_) => relocated(
                before,
                pml4,
                images[n - 1].relocations,
                images[n - 1].relocations.len() as int,
            ),
        }
    }
}

/// Memory after the references to symbols of the first `n` files have been
/// filled in.
pub open spec fn files_linked(
    ram: Seq<u64>,
    pml4: u64,
    images: Seq<ImageV>,
    exports: Seq<(Seq<u8>, u64)>,
    n: int,
) -> (Seq<u64>, Result<(), &'static str>)
    decreases n,
{
    if n <= 0 {
        (ram, Ok(()))
    } else {
        let (before, r) = files_linked(ram, pml4, images, exports, n - 1);
        match r {
            Err(e) => (before, Err(e)),
            Ok(_) => linked(
                before,
                pml4,
                images[n - 1].externs,
                exports,
                images[n - 1].externs.len() as int,
            ),
        }
    }
}

/// What the first `n` files export, but for the program itself.
pub open spec fn all_exports(images: Seq<ImageV>, n: int) -> Seq<(Seq<u8>, u64)>
    decreases n,
{
    if n <= 1 {
        Seq::empty()
    } else {
        all_exports(images, n - 1) + images[n - 1].exports
    }
}

/// Whether some file has relocations that only running its code could
/// resolve.
pub open spec fn needs_ifunc(images: Seq<ImageV>) -> bool {
    exists|i: int| 0 <= i < images.len() && (#[trigger] images[i]).irelative.len() > 0
}

/// Memory after the files of a program have been relocated and linked.
pub open spec fn all_linked(ram: Seq<u64>, pml4: u64, images: Seq<ImageV>) -> (Seq<u64>, Result<(), &'static str>) {
    let n = images.len() as int;
    match files_relocated(ram, pml4, images, n) {
        (r, Err(e)) => (r, Err(e)),
        (r, Ok(_)) => if needs_ifunc(images) {
            (r, Err(NEEDS_IFUNC))
        } else {
            files_linked(r, pml4, images, all_exports(images, n), n)
        },
    }
}

/// Memory after a program has been loaded into an address space of its own,
/// with that address space and the stack pointer to start with.
pub open spec fn loaded(s: Mem, source: u64, p: PlanV, argv: Seq<Seq<u8>>, envp: Seq<Seq<u8>>) -> (
    Mem,
    Result<(u64, u64), &'static str>,
) {
    match s.frames.take() {
        (_, None) => (s, Err(NO_ROOM)),
        (frames, Some(pml4)) => {
            let fresh = Mem { ram: with_root(s.ram, pml4, source), frames };
            match files_mapped(fresh, pml4, p.images, p.images.len() as int) {
                (s1, Err(e)) => (s1, Err(e)),
                (s1, Ok(_)) => {
                    let (ram, r) = if p.eager {
                        all_linked(s1.ram, pml4, p.images)
                    } else {
                        (s1.ram, Ok(()))
                    };
                    match r {
                        Err(e) => (Mem { ram, ..s1 }, Err(e)),
                        Ok(_) => match stack_mapped(Mem { ram, ..s1 }, pml4, 32) {
                            (s2, Err(e)) => (s2, Err(e)),
                            (s2, Ok(_)) => match initial_stack(
                                s2.ram,
                                pml4,
                                (USER_STACK_BASE + USER_STACK_SIZE) as u64,
                                argv,
                                envp,
                                p.images[0],
                                p.at_base,
                            ) {
                                (r2, Err(e)) => (Mem { ram: r2, ..s2 }, Err(e)),
                                (r2, Ok(sp)) => (Mem { ram: r2, ..s2 }, Ok((pml4, sp))),
                            },
                        },
                    }
                },
            }
        },
    }
}

proof fn lemma_mapped_fail(s: Mem, pml4: u64, images: Seq<ImageV>, n: int, m: int)
    requires
        n <= m,
        files_mapped(s, pml4, images, n).1 is Err,
    ensures
        files_mapped(s, pml4, images, m) == files_mapped(s, pml4, images, n),
    decreases m - n,
{
    if n < m && m > 0 {
        lemma_mapped_fail(s, pml4, images, n, m - 1);
    }
}

proof fn lemma_files_relocated_fail(ram: Seq<u64>, pml4: u64, images: Seq<ImageV>, n: int, m: int)
    requires
        n <= m,
        files_relocated(ram, pml4, images, n).1 is Err,
    ensures
        files_relocated(ram, pml4, images, m) == files_relocated(ram, pml4, images, n),
    decreases m - n,
{
    if n < m && m > 0 {
        lemma_files_relocated_fail(ram, pml4, images, n, m - 1);
    }
}

proof fn lemma_files_linked_fail(
    ram: Seq<u64>,
    pml4: u64,
    images: Seq<ImageV>,
    exports: Seq<(Seq<u8>, u64)>,
    n: int,
    m: int,
)
    requires
        n <= m,
        files_linked(ram, pml4, images, exports, n).1 is Err,
    ensures
        files_linked(ram, pml4, images, exports, m) == files_linked(ram, pml4, images, exports, n),
    decreases m - n,
{
    if n < m && m > 0 {
        lemma_files_linked_fail(ram, pml4, images, exports, n, m - 1);
    }
}

fn map_files(mem: &mut Memory, pml4: u64, images: &Vec<Image>) -> (r: Result<(), &'static str>)
    requires
        old(mem).wf(),
        space_ok(old(mem)@, pml4),
    ensures
        final(mem).wf(),
        space_ok(final(mem)@, pml4),
        (final(mem)@, r) == files_mapped(old(mem)@, pml4, images_view(images@), images@.len() as int),
        final(mem).ram.len() == old(mem).ram.len(),
        final(mem).cr3 == old(mem).cr3,
        final(mem).nx == old(mem).nx,
        final(mem).pmm.ready() == old(mem).pmm.ready(),
        final(mem).pmm.offset() == old(mem).pmm.offset(),
{
    let n: usize = images.len();
    let ghost s = mem@;
    let ghost shown = images_view(images@);
    for i in 0..n
        invariant
            n == images@.len(),
            shown == images_view(images@),
            s == old(mem)@,
            mem.wf(),
            space_ok(mem@, pml4),
            mem.ram.len() == old(mem).ram.len(),
            mem.cr3 == old(mem).cr3,
            mem.nx == old(mem).nx,
            mem.pmm.ready() == old(mem).pmm.ready(),
            mem.pmm.offset() == old(mem).pmm.offset(),
            files_mapped(s, pml4, shown, i as int) == (mem@, Ok::<(), &'static str>(())),
    {
        proof {
            if files_mapped(s, pml4, shown, i + 1).1 is Err {
                lemma_mapped_fail(s, pml4, shown, i + 1, n as int);
            }
        }
        match map_segments(mem, pml4, &images[i].segments) {
            Ok(_) => {},
            Err(e) => {
                return Err(e);
            },
        }
    }
    Ok(())
}

fn relocate_files(mem: &mut Memory, pml4: u64, images: &Vec<Image>) -> (r: Result<(), &'static str>)
    requires
        old(mem).wf(),
        space_ok(old(mem)@, pml4),
    ensures
        final(mem).wf(),
        space_ok(final(mem)@, pml4),
        (final(mem).ram@, r) == files_relocated(
            old(mem).ram@,
            pml4,
            images_view(images@),
            images@.len() as int,
        ),
        final(mem).ram.len() == old(mem).ram.len(),
        final(mem).pmm == old(mem).pmm,
        final(mem).cr3 == old(mem).cr3,
        final(mem).nx == old(mem).nx,
{
    let n: usize = images.len();
    let ghost ram = mem.ram@;
    let ghost shown = images_view(images@);
    for i in 0..n
        invariant
            n == images@.len(),
            shown == images_view(images@),
            ram == old(mem).ram@,
            mem.wf(),
            space_ok(mem@, pml4),
            mem.ram.len() == old(mem).ram.len(),
            mem.pmm == old(mem).pmm,
            mem.cr3 == old(mem).cr3,
            mem.nx == old(mem).nx,
            files_relocated(ram, pml4, shown, i as int) == (mem.ram@, Ok::<(), &'static str>(())),
    {
        proof {
            if files_relocated(ram, pml4, shown, i + 1).1 is Err {
                lemma_files_relocated_fail(ram, pml4, shown, i + 1, n as int);
            }
        }
        match relocate(mem, pml4, &images[i].relocations) {
            Ok(_) => {},
            Err(e) => {
                return Err(e);
            },
        }
    }
    Ok(())
}

fn link_files(mem: &mut Memory, pml4: u64, images: &Vec<Image>, exports: &Vec<(Vec<u8>, u64)>) -> (r: Result<
    (),
    &'static str,
>)
    requires
        old(mem).wf(),
        space_ok(old(mem)@, pml4),
    ensures
        final(mem).wf(),
        space_ok(final(mem)@, pml4),
        (final(mem).ram@, r) == files_linked(
            old(mem).ram@,
            pml4,
            images_view(images@),
            exports_view(exports@),
            images@.len() as int,
        ),
        final(mem).ram.len() == old(mem).ram.len(),
        final(mem).pmm == old(mem).pmm,
        final(mem).cr3 == old(mem).cr3,
        final(mem).nx == old(mem).nx,
{
    let n: usize = images.len();
    let ghost ram = mem.ram@;
    let ghost shown = images_view(images@);
    let ghost names = exports_view(exports@);
    for i in 0..n
        invariant
            n == images@.len(),
            shown == images_view(images@),
            names == exports_view(exports@),
            ram == old(mem).ram@,
            mem.wf(),
            space_ok(mem@, pml4),
            mem.ram.len() == old(mem).ram.len(),
            mem.pmm == old(mem).pmm,
            mem.cr3 == old(mem).cr3,
            mem.nx == old(mem).nx,
            files_linked(ram, pml4, shown, names, i as int) == (mem.ram@, Ok::<(), &'static str>(())),
    {
        proof {
            if files_linked(ram, pml4, shown, names, i + 1).1 is Err {
                lemma_files_linked_fail(ram, pml4, shown, names, i + 1, n as int);
            }
        }
        match link_externs(mem, pml4, &images[i].extern_relocations, exports) {
            Ok(_) => {},
            Err(e) => {
                return Err(e);
            },
        }
    }
    Ok(())
}

/// What the libraries of a program export.
fn collect_exports(images: &Vec<Image>) -> (r: Vec<(Vec<u8>, u64)>)
    ensures
        exports_view(r@) == all_exports(images_view(images@), images@.len() as int),
{
    let n: usize = images.len();
    let ghost shown = images_view(images@);
    let mut out: Vec<(Vec<u8>, u64)> = Vec::new();
    assert(exports_view(out@) =~= all_exports(shown, 0));
    for i in 0..n
        invariant
            n == images@.len(),
            shown == images_view(images@),
            exports_view(out@) == all_exports(shown, i as int),
    {
        if i > 0 {
            let ghost start = exports_view(out@);
            let m: usize = images[i].exports.len();
            let ghost more = shown[i as int].exports;
            assert(more.take(0) =~= Seq::empty());
            assert(start + more.take(0) =~= start);
            for j in 0..m
                invariant
                    i < images@.len(),
                    shown == images_view(images@),
                    m == images@[i as int].exports@.len(),
                    more == shown[i as int].exports,
                    exports_view(out@) == start + more.take(j as int),
            {
                let name = slice_to_vec(images[i].exports[j].0.as_slice());
                let ghost was = out@;
                out.push((name, images[i].exports[j].1));
                assert(more[j as int] == (name@, images@[i as int].exports@[j as int].1));
                assert(exports_view(out@) =~= exports_view(was).push(more[j as int]));
                assert(exports_view(out@) =~= start + more.take(j + 1));
            }
            assert(more.take(m as int) =~= more);
        } else {
            assert(exports_view(out@) =~= all_exports(shown, 1));
        }
    }
    out
}

fn any_ifunc(images: &Vec<Image>) -> (r: bool)
    ensures
        r == needs_ifunc(images_view(images@)),
{
    let n: usize = images.len();
    let ghost shown = images_view(images@);
    for i in 0..n
        invariant
            n == images@.len(),
            shown == images_view(images@),
            forall|k: int| 0 <= k < i ==> (#[trigger] shown[k]).irelative.len() == 0,
    {
        assert(shown[i as int] == images@[i as int]@);
        if images[i].irelative_relocations.len() > 0 {
            assert(shown[i as int].irelative.len() > 0);
            return true;
        }
    }
    false
}

fn link_all(mem: &mut Memory, pml4: u64, images: &Vec<Image>) -> (r: Result<(), &'static str>)
    requires
        old(mem).wf(),
        space_ok(old(mem)@, pml4),
    ensures
        final(mem).wf(),
        space_ok(final(mem)@, pml4),
        (final(mem).ram@, r) == all_linked(old(mem).ram@, pml4, images_view(images@)),
        final(mem).ram.len() == old(mem).ram.len(),
        final(mem).pmm == old(mem).pmm,
        final(mem).cr3 == old(mem).cr3,
        final(mem).nx == old(mem).nx,
{
    match relocate_files(mem, pml4, images) {
        Ok(_) => {},
        Err(e) => {
            return Err(e);
        },
    }
    if any_ifunc(images) {
        return Err(NEEDS_IFUNC);
    }
    let exports = collect_exports(images);
    link_files(mem, pml4, images, &exports)
}

/// Loads the files of a program into a new address space and sets up its
/// stack. Returns the address space and the stack pointer.
fn load(mem: &mut Memory, p: &Plan, argv: &Vec<Vec<u8>>, envp: &Vec<Vec<u8>>) -> (r: Result<
    (u64, u64),
    &'static str,
>)
    requires
        old(mem).wf(),
        tables_ok(old(mem).ram@, target(old(mem).cr3)),
        tables_used(old(mem)@, target(old(mem).cr3)),
        p.images@.len() > 0,
    ensures
        final(mem).wf(),
        (final(mem)@, r) == loaded(
            old(mem)@,
            target(old(mem).cr3),
            p@,
            names_view(argv@),
            names_view(envp@),
        ),
        r matches Ok((pml4, sp)) ==> space_ok(final(mem)@, pml4) && sp % 16 == 0,
        final(mem).ram.len() == old(mem).ram.len(),
        final(mem).cr3 == old(mem).cr3,
        final(mem).nx == old(mem).nx,
        final(mem).pmm.ready() == old(mem).pmm.ready(),
        final(mem).pmm.offset() == old(mem).pmm.offset(),
{
    let ghost source = target(mem.cr3);
    let ghost s = mem@;
    proof {
        law_allocation(s.frames);
        assert(path_ok(s.ram, source, 0));
        assert(table_at(s.ram, source, 0, 0) == Some(source));
        if s.frames.take().1 is Some {
            law_new_space_ok(s, source);
        }
    }
    if stats(&mem.pmm).1 == 0 {
        return Err(NO_ROOM);
    }
    let pml4: u64 = new_address_space(mem);
    assert(mem@ == (Mem { ram: with_root(s.ram, pml4, source), frames: s.frames.take().0 }));
    match map_files(mem, pml4, &p.images) {
        Ok(_) => {},
        Err(e) => {
            return Err(e);
        },
    }
    if p.eager {
        match link_all(mem, pml4, &p.images) {
            Ok(_) => {},
            Err(e) => {
                return Err(e);
            },
        }
    }
    match map_stack(mem, pml4) {
        Ok(_) => {},
        Err(e) => {
            return Err(e);
        },
    }
    match build_initial_stack(
        mem,
        pml4,
        USER_STACK_BASE + USER_STACK_SIZE,
        argv,
        envp,
        &p.images[0],
        p.at_base,
    ) {
        Ok(sp) => Ok((pml4, sp)),
        Err(e) => Err(e),
    }
}

/// Loads the program that a file holds into an address space of its own and
/// adds a task that runs it, with its kernel stack at `base`. Returns the
/// task's number and the program's format. Whatever the file holds, a program
/// that cannot be run is an error.
pub fn load_and_run(
    fs: &mut Fs,
    mem: &mut Memory,
    tasks: &mut TaskTable,
    name: &'static str,
    argv: &Vec<Vec<u8>>,
    envp: &Vec<Vec<u8>>,
    bytes: &[u8],
    base: u64,
) -> (r: Result<(u64, Format), &'static str>)
    requires
        old(fs).wf(),
        old(mem).wf(),
        old(tasks).wf(),
        tables_ok(old(mem).ram@, target(old(mem).cr3)),
        tables_used(old(mem)@, target(old(mem).cr3)),
        argv@.len() > 0,
        base + STACK_SIZE <= u64::MAX,
    ensures
        final(fs).wf(),
        final(fs).only_read(*old(fs)),
        final(mem).wf(),
        final(tasks).wf(),
        final(mem).cr3 == old(mem).cr3,
        final(mem).nx == old(mem).nx,
        final(mem).pmm.ready() == old(mem).pmm.ready(),
        final(mem).pmm.offset() == old(mem).pmm.offset(),
        tables_ok(final(mem).ram@, target(final(mem).cr3)),
        tables_used(final(mem)@, target(final(mem).cr3)),
        space_ok(old(mem)@, target(old(mem).cr3)) ==> space_ok(final(mem)@, target(final(mem).cr3)),
        match planned(old(fs).volume(), old(fs).place(), bytes@) {
            Err(e) => r == Err::<(u64, Format), &'static str>(e) && final(mem)@ == old(mem)@ && final(tasks)@ == old(tasks)@,
            Ok(p) => match loaded(
                old(mem)@,
                target(old(mem).cr3),
                p,
                names_view(argv@),
                names_view(envp@),
            ) {
                (m, Err(e)) => r == Err::<(u64, Format), &'static str>(e) && final(mem)@ == m && final(tasks)@
                    == old(tasks)@,
                (m, Ok((pml4, sp))) => {
                    &&& final(mem)@ == m
                    &&& space_ok(m, pml4)
                    &&& sp % 16 == 0
                    &&& match free_slot(old(tasks)@.slots, 0) {
                        None => r == Err::<(u64, Format), &'static str>("loader: out of task slots") && final(tasks)@
                            == old(tasks)@,
                        Some(i) => {
                            &&& r == Ok::<(u64, Format), &'static str>(
                                (old(tasks)@.next_id, p.images[0].format),
                            )
                            &&& admitted(old(tasks)@, final(tasks)@, i, None)
                            &&& spawned(
                                final(tasks)@.slots[i]->0,
                                old(tasks)@.next_id,
                                name,
                                first_frame(old(tasks)@.enter_user, p.entry, sp),
                                (base + STACK_SIZE) as u64,
                                pml4,
                                USER_HEAP_BASE,
                                0,
                                None,
                                argv@[0]@,
                            )
                        },
                    }
                },
            },
        },
{
    let p = match plan(fs, bytes) {
        Ok(p) => p,
        Err(e) => {
            return Err(e);
        },
    };
    assert(p@.images.len() == p.images@.len());
    proof {
        law_loading_keeps_source(mem@, target(mem.cr3), p@, names_view(argv@), names_view(envp@));
        if space_ok(mem@, target(mem.cr3)) {
            law_loading_keeps_space(mem@, target(mem.cr3), p@, names_view(argv@), names_view(envp@));
        }
    }
    let (pml4, sp) = match load(mem, &p, argv, envp) {
        Ok(x) => x,
        Err(e) => {
            return Err(e);
        },
    };
    let exe_path = slice_to_vec(argv[0].as_slice());
    match spawn_user(tasks, name, exe_path, p.entry, sp, pml4, base) {
        Some(id) => Ok((id, p.images[0].format)),
        None => Err("loader: out of task slots"),
    }
}

} // verus!
