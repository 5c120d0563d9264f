//! 64-bit Windows executables (PE32+): their headers, their sections and the
//! refusal of those that need libraries.
use crate::elf::{at32, read_u16, read_u32, TRUNCATED};
use crate::le::{get16, get32, get64, le16, le32, le64};
use crate::loader::{segments_view, Format, Image, ImageV, Segment, SegmentV};
use vstd::prelude::*;
use vstd::slice::{slice_subrange, slice_to_vec};

verus! {

pub const IMAGE_FILE_MACHINE_AMD64: u16 = 0x8664;

pub const PE32_PLUS_MAGIC: u16 = 0x20b;

pub const IMAGE_SCN_MEM_WRITE: u32 = 0x8000_0000;

/// One entry of the section table.
#[derive(Clone, Copy)]
pub struct SectionHeader {
    pub virtual_address: u32,
    pub virtual_size: u32,
    pub size_of_raw_data: u32,
    pub ptr_to_raw_data: u32,
    pub characteristics: u32,
}

/// Where in the file the byte at `rva` of the loaded image comes from. `None`
/// if no section covers it, or the first that does has no bytes in the file.
pub open spec fn file_offset(sections: Seq<SectionHeader>, rva: u32) -> Option<int>
    decreases sections.len(),
{
    if sections.len() == 0 {
        None
    } else {
        let s = sections[0];
        let span = if s.virtual_size >= s.size_of_raw_data {
            s.virtual_size
        } else {
            s.size_of_raw_data
        };
        if s.virtual_address <= rva < s.virtual_address + span {
            if s.ptr_to_raw_data == 0 {
                None
            } else {
                Some(s.ptr_to_raw_data + (rva - s.virtual_address))
            }
        } else {
            file_offset(sections.drop_first(), rva)
        }
    }
}

fn rva_to_file_offset(sections: &Vec<SectionHeader>, rva: u32) -> (r: Option<u128>)
    ensures
        match file_offset(sections@, rva) {
            None => r is None,
            Some(o) => r matches Some(x) && x == o && x <= 0x2_0000_0000,
        },
{
    let n: usize = sections.len();
    assert(sections@.skip(0) =~= sections@);
    for i in 0..n
        invariant
            n == sections@.len(),
            file_offset(sections@, rva) == file_offset(sections@.skip(i as int), rva),
    {
        assert(sections@.skip(i as int)[0] == sections@[i as int]);
        assert(sections@.skip(i as int).drop_first() =~= sections@.skip(i + 1));
        let s = sections[i];
        let span: u32 = if s.virtual_size >= s.size_of_raw_data {
            s.virtual_size
        } else {
            s.size_of_raw_data
        };
        if rva >= s.virtual_address && (rva as u64) < s.virtual_address as u64 + span as u64 {
            if s.ptr_to_raw_data == 0 {
                return None;
            }
            return Some(s.ptr_to_raw_data as u128 + (rva - s.virtual_address) as u128);
        }
    }
    None
}

/// The section header at `at`.
pub open spec fn section_at(b: Seq<u8>, at: int) -> Result<SectionHeader, &'static str> {
    match (at32(b, at + 12), at32(b, at + 8), at32(b, at + 16), at32(b, at + 20), at32(b, at + 36)) {
        (
            Ok(virtual_address),
            Ok(virtual_size),
            Ok(size_of_raw_data),
            Ok(ptr_to_raw_data),
            Ok(characteristics),
        ) => Ok(
            SectionHeader {
                virtual_address,
                virtual_size,
                size_of_raw_data,
                ptr_to_raw_data,
                characteristics,
            },
        ),
        _ => Err(TRUNCATED),
    }
}

/// The first `n` entries of the section table at `table`.
pub open spec fn sections_at(b: Seq<u8>, table: int, n: int) -> Result<Seq<SectionHeader>, &'static str>
    decreases n,
{
    if n <= 0 {
        Ok(Seq::empty())
    } else {
        match sections_at(b, table, n - 1) {
            Err(e) => Err(e),
            Ok(before) => match section_at(b, table + 40 * (n - 1)) {
                Err(e) => Err(e),
                Ok(s) => Ok(before.push(s)),
            },
        }
    }
}

proof fn lemma_sections_fail(b: Seq<u8>, table: int, n: int, m: int)
    requires
        n <= m,
        sections_at(b, table, n) is Err,
    ensures
        sections_at(b, table, m) == sections_at(b, table, n),
    decreases m - n,
{
    if n < m && m > 0 {
        lemma_sections_fail(b, table, n, m - 1);
    }
}

fn read_section(bytes: &[u8], at: u128) -> (r: Result<SectionHeader, &'static str>)
    requires
        at <= 0x2_0000_0000,
    ensures
        r == section_at(bytes@, at as int),
{
    let virtual_address: u32 = match read_u32(bytes, at + 12) {
        Ok(x) => x,
        Err(e) => {
            return Err(e);
        },
    };
    let virtual_size: u32 = match read_u32(bytes, at + 8) {
        Ok(x) => x,
        Err(e) => {
            return Err(e);
        },
    };
    let size_of_raw_data: u32 = match read_u32(bytes, at + 16) {
        Ok(x) => x,
        Err(e) => {
            return Err(e);
        },
    };
    let ptr_to_raw_data: u32 = match read_u32(bytes, at + 20) {
        Ok(x) => x,
        Err(e) => {
            return Err(e);
        },
    };
    let characteristics: u32 = match read_u32(bytes, at + 36) {
        Ok(x) => x,
        Err(e) => {
            return Err(e);
        },
    };
    Ok(
        SectionHeader {
            virtual_address,
            virtual_size,
            size_of_raw_data,
            ptr_to_raw_data,
            characteristics,
        },
    )
}

fn read_sections(bytes: &[u8], table: u128, count: u16) -> (r: Result<Vec<SectionHeader>, &'static str>)
    requires
        table <= 0x1_0010_0000,
    ensures
        match sections_at(bytes@, table as int, count as int) {
            Ok(x) => r matches Ok(v) && v@ == x,
            Err(e) => r matches Err(y) && y == e,
        },
{
    let mut sections: Vec<SectionHeader> = Vec::new();
    for i in 0..count
        invariant
            table <= 0x1_0010_0000,
            sections_at(bytes@, table as int, i as int) == Ok::<Seq<SectionHeader>, &'static str>(
                sections@,
            ),
    {
        proof {
            if sections_at(bytes@, table as int, i + 1) is Err {
                lemma_sections_fail(bytes@, table as int, i + 1, count as int);
            }
        }
        match read_section(bytes, table + 40 * (i as u128)) {
            Ok(s) => {
                sections.push(s);
            },
            Err(e) => {
                return Err(e);
            },
        }
    }
    Ok(sections)
}

/// Whether the import table at `rva` names a library: its first descriptor is
/// not all zeros, or cannot be found.
pub open spec fn imports(b: Seq<u8>, sections: Seq<SectionHeader>, rva: u32) -> bool {
    match file_offset(sections, rva) {
        None => true,
        Some(off) => off + 20 > b.len() || exists|k: int| 0 <= k < 20 && #[trigger] b[off + k] != 0,
    }
}

fn has_imports(bytes: &[u8], sections: &Vec<SectionHeader>, rva: u32) -> (r: bool)
    ensures
        r == imports(bytes@, sections@, rva),
{
    match rva_to_file_offset(sections, rva) {
        None => true,
        Some(off) => {
            if off + 20 > bytes.len() as u128 {
                return true;
            }
            let o: usize = off as usize;
            assert(bytes.len() == bytes@.len());
            for k in 0..20usize
                invariant
                    o + 20 <= bytes@.len() <= usize::MAX,
                    file_offset(sections@, rva) == Some(o as int),
                    forall|j: int| 0 <= j < k ==> #[trigger] bytes@[o + j] == 0,
            {
                if bytes[o + k] != 0 {
                    assert(bytes@[o + k as int] != 0);
                    return true;
                }
            }
            false
        },
    }
}

/// The segment that a section becomes, if it takes up any memory.
pub open spec fn section_segment(b: Seq<u8>, base: u64, s: SectionHeader) -> Result<
    Option<SegmentV>,
    &'static str,
> {
    let mem_size = if s.virtual_size != 0 {
        s.virtual_size
    } else {
        s.size_of_raw_data
    };
    let len = if s.size_of_raw_data <= mem_size {
        s.size_of_raw_data
    } else {
        mem_size
    };
    let start = s.ptr_to_raw_data as int;
    let vaddr = base.wrapping_add(s.virtual_address as u64);
    let writable = s.characteristics >= IMAGE_SCN_MEM_WRITE;
    if mem_size == 0 {
        Ok(None)
    } else if s.ptr_to_raw_data == 0 || s.size_of_raw_data == 0 {
        Ok(Some(SegmentV { vaddr, mem_size: mem_size as u64, writable, bytes: Seq::empty() }))
    } else if start + len > b.len() {
        Err("loader: PE section points outside the file")
    } else {
        Ok(
            Some(
                SegmentV { vaddr, mem_size: mem_size as u64, writable, bytes: b.subrange(start, start + len) },
            ),
        )
    }
}

/// The segments that the first `n` sections become.
pub open spec fn section_segments(b: Seq<u8>, base: u64, sections: Seq<SectionHeader>, n: int) -> Result<
    Seq<SegmentV>,
    &'static str,
>
    decreases n,
{
    if n <= 0 {
        Ok(Seq::empty())
    } else {
        match section_segments(b, base, sections, n - 1) {
            Err(e) => Err(e),
            Ok(before) => match section_segment(b, base, sections[n - 1]) {
                Err(e) => Err(e),
                Ok(None) => Ok(before),
                Ok(Some(s)) => Ok(before.push(s)),
            },
        }
    }
}

proof fn lemma_segments_fail(b: Seq<u8>, base: u64, sections: Seq<SectionHeader>, n: int, m: int)
    requires
        n <= m,
        section_segments(b, base, sections, n) is Err,
    ensures
        section_segments(b, base, sections, m) == section_segments(b, base, sections, n),
    decreases m - n,
{
    if n < m && m > 0 {
        lemma_segments_fail(b, base, sections, n, m - 1);
    }
}

fn read_segments(bytes: &[u8], base: u64, sections: &Vec<SectionHeader>) -> (r: Result<
    Vec<Segment>,
    &'static str,
>)
    ensures
        match section_segments(bytes@, base, sections@, sections@.len() as int) {
            Ok(x) => r matches Ok(v) && segments_view(v@) == x,
            Err(e) => r matches Err(y) && y == e,
        },
{
    let mut segments: Vec<Segment> = Vec::new();
    let n: usize = sections.len();
    assert(segments_view(segments@) =~= Seq::empty());
    for i in 0..n
        invariant
            n == sections@.len(),
            section_segments(bytes@, base, sections@, i as int) == Ok::<Seq<SegmentV>, &'static str>(
                segments_view(segments@),
            ),
    {
        proof {
            if section_segments(bytes@, base, sections@, i + 1) is Err {
                lemma_segments_fail(bytes@, base, sections@, i + 1, n as int);
            }
        }
        let s = sections[i];
        let mem_size: u32 = if s.virtual_size != 0 {
            s.virtual_size
        } else {
            s.size_of_raw_data
        };
        if mem_size != 0 {
            let file_bytes: Vec<u8> = if s.ptr_to_raw_data == 0 || s.size_of_raw_data == 0 {
                Vec::new()
            } else {
                let len: u32 = if s.size_of_raw_data <= mem_size {
                    s.size_of_raw_data
                } else {
                    mem_size
                };
                if s.ptr_to_raw_data as u128 + len as u128 > bytes.len() as u128 {
                    return Err("loader: PE section points outside the file");
                }
                slice_to_vec(
                    slice_subrange(
                        bytes,
                        s.ptr_to_raw_data as usize,
                        s.ptr_to_raw_data as usize + len as usize,
                    ),
                )
            };
            let ghost was = segments@;
            segments.push(
                Segment {
                    vaddr: base.wrapping_add(s.virtual_address as u64),
                    mem_size: mem_size as u64,
                    writable: s.characteristics >= IMAGE_SCN_MEM_WRITE,
                    file_bytes,
                },
            );
            assert(segments_view(segments@) =~= segments_view(was).push(segments@.last()@));
            assert(segments@.last()@.bytes =~= (section_segment(bytes@, base, s)->Ok_0->0).bytes);
        }
    }
    Ok(segments)
}

/// What the headers of a PE file say, with the sections; the import table is
/// not looked at yet.
pub ghost struct PeV {
    pub opt: int,
    pub entry_rva: u32,
    pub image_base: u64,
    pub directories: u32,
    pub sections: Seq<SectionHeader>,
}

pub open spec fn signed_pe(b: Seq<u8>, at: int) -> bool {
    at + 4 <= b.len() && b[at] == 0x50 && b[at + 1] == 0x45 && b[at + 2] == 0 && b[at + 3] == 0
}

pub open spec fn pe_headers(b: Seq<u8>) -> Result<PeV, &'static str> {
    if b.len() < 0x40 {
        Err("loader: PE file too short to hold a DOS header")
    } else if !(b[0] == 0x4D && b[1] == 0x5A) {
        Err("loader: not a PE file (bad DOS signature)")
    } else {
        let coff = le32(b, 0x3C) + 4;
        let opt = coff + 20;
        if !signed_pe(b, coff - 4) {
            Err("loader: not a PE file (bad PE signature)")
        } else if coff + 2 > b.len() {
            Err(TRUNCATED)
        } else if le16(b, coff) != IMAGE_FILE_MACHINE_AMD64 {
            Err("loader: not an x86_64 (IMAGE_FILE_MACHINE_AMD64) PE executable")
        } else if opt + 2 > b.len() {
            Err(TRUNCATED)
        } else if le16(b, opt) != PE32_PLUS_MAGIC {
            Err("loader: only PE32+ (64-bit) executables are supported, not classic 32-bit PE32")
        } else if opt + 112 > b.len() {
            Err(TRUNCATED)
        } else {
            let count = le16(b, coff + 2) as int;
            let size = le16(b, coff + 16) as int;
            match sections_at(b, opt + size, count) {
                Err(e) => Err(e),
                Ok(sections) => Ok(
                    PeV {
                        opt,
                        entry_rva: le32(b, opt + 16),
                        image_base: le64(b, opt + 24),
                        directories: le32(b, opt + 108),
                        sections,
                    },
                ),
            }
        }
    }
}

/// The import table's place and size.
pub open spec fn import_entry(b: Seq<u8>, h: PeV) -> Result<(u32, u32), &'static str> {
    if h.directories <= 1 {
        Ok((0, 0))
    } else {
        match (at32(b, h.opt + 120), at32(b, h.opt + 124)) {
            (Ok(rva), Ok(size)) => Ok((rva, size)),
            _ => Err(TRUNCATED),
        }
    }
}

/// A PE file, taken apart.
#[verifier::opaque]
pub open spec fn pe_image(b: Seq<u8>) -> Result<ImageV, &'static str> {
    match pe_headers(b) {
        Err(e) => Err(e),
        Ok(h) => match import_entry(b, h) {
            Err(e) => Err(e),
            Ok((rva, size)) => if size != 0 && imports(b, h.sections, rva) {
                Err(
                    "loader: this PE imports functions from external DLLs, which KonjacOS can't resolve -- only self-contained .exe files built against KonjacOS's own syscalls can run",
                )
            } else {
                match section_segments(b, h.image_base, h.sections, h.sections.len() as int) {
                    Err(e) => Err(e),
                    Ok(segments) => if segments.len() == 0 {
                        Err("loader: PE file has no sections to load")
                    } else {
                        Ok(
                            ImageV {
                                format: Format::Pe,
                                entry: h.image_base.wrapping_add(h.entry_rva as u64),
                                segments,
                                relocations: Seq::empty(),
                                externs: Seq::empty(),
                                irelative: Seq::empty(),
                                needed: Seq::empty(),
                                exports: Seq::empty(),
                                phdr_vaddr: 0,
                                phentsize: 0,
                                phnum: 0,
                                interp: None,
                            },
                        )
                    },
                }
            },
        },
    }
}

/// Takes a PE executable apart. One that imports anything from a library is
/// refused.
pub fn parse_pe(bytes: &[u8]) -> (r: Result<Image, &'static str>)
    ensures
        match pe_image(bytes@) {
            Ok(x) => r matches Ok(i) && i@ == x,
            Err(e) => r matches Err(y) && y == e,
        },
{
    proof {
        reveal(pe_image);
    }
    if bytes.len() < 0x40 {
        return Err("loader: PE file too short to hold a DOS header");
    }
    if !(bytes[0] == 0x4D && bytes[1] == 0x5A) {
        return Err("loader: not a PE file (bad DOS signature)");
    }
    let n: u128 = bytes.len() as u128;
    let start: u128 = get32(bytes, 0x3C) as u128;
    if start + 4 > n {
        return Err("loader: not a PE file (bad PE signature)");
    }
    let s: usize = start as usize;
    if !(bytes[s] == 0x50 && bytes[s + 1] == 0x45 && bytes[s + 2] == 0 && bytes[s + 3] == 0) {
        return Err("loader: not a PE file (bad PE signature)");
    }
    let coff: u128 = start + 4;
    let machine: u16 = match read_u16(bytes, coff) {
        Ok(x) => x,
        Err(e) => {
            return Err(e);
        },
    };
    if machine != IMAGE_FILE_MACHINE_AMD64 {
        return Err("loader: not an x86_64 (IMAGE_FILE_MACHINE_AMD64) PE executable");
    }
    let opt: u128 = coff + 20;
    let magic: u16 = match read_u16(bytes, opt) {
        Ok(x) => x,
        Err(e) => {
            return Err(e);
        },
    };
    if magic != PE32_PLUS_MAGIC {
        return Err(
            "loader: only PE32+ (64-bit) executables are supported, not classic 32-bit PE32",
        );
    }
    let directories: u32 = match read_u32(bytes, opt + 108) {
        Ok(x) => x,
        Err(e) => {
            return Err(e);
        },
    };
    let o: usize = opt as usize;
    let count: u16 = get16(bytes, coff as usize + 2);
    let size: u16 = get16(bytes, coff as usize + 16);
    let entry_rva: u32 = get32(bytes, o + 16);
    let image_base: u64 = get64(bytes, o + 24);
    let sections = match read_sections(bytes, opt + size as u128, count) {
        Ok(x) => x,
        Err(e) => {
            return Err(e);
        },
    };
    if directories > 1 {
        let rva: u32 = match read_u32(bytes, opt + 120) {
            Ok(x) => x,
            Err(e) => {
                return Err(e);
            },
        };
        let len: u32 = match read_u32(bytes, opt + 124) {
            Ok(x) => x,
            Err(e) => {
                return Err(e);
            },
        };
        if len != 0 && has_imports(bytes, &sections, rva) {
            return Err(
                "loader: this PE imports functions from external DLLs, which KonjacOS can't resolve -- only self-contained .exe files built against KonjacOS's own syscalls can run",
            );
        }
    }
    let segments = match read_segments(bytes, image_base, &sections) {
        Ok(x) => x,
        Err(e) => {
            return Err(e);
        },
    };
    if segments.len() == 0 {
        return Err("loader: PE file has no sections to load");
    }
    let r = Image {
        format: Format::Pe,
        entry: image_base.wrapping_add(entry_rva as u64),
        segments,
        relocations: Vec::new(),
        extern_relocations: Vec::new(),
        irelative_relocations: Vec::new(),
        needed: Vec::new(),
        exports: Vec::new(),
        phdr_vaddr: 0,
        phentsize: 0,
        phnum: 0,
        interp: None,
    };
    assert(r@.externs =~= Seq::empty());
    assert(r@.needed =~= Seq::empty());
    assert(r@.exports =~= Seq::empty());
    Ok(r)
}

} // verus!
