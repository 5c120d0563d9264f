//! What holds of one ELF file loaded at two places.
use crate::elf::{
    elf_image, export_reads, exported_symbols, general_relocations, headers_read, headers_vaddr, linkage_relocations,
    links_read, no_links, packed_relocations, plt_reads, rela_read, rela_reads, relr_bits, relr_reads, relr_site,
    HeadersV, LinkV, Load, TablesV,
};
use crate::le::{le16, le64};
use crate::loader::{ExternV, ImageV, SegmentV};
use vstd::prelude::*;

verus! {

/// Pairs of addresses, both shifted by `d`.
pub open spec fn pairs_moved(a: Seq<(u64, u64)>, b: Seq<(u64, u64)>, d: u64) -> bool {
    &&& b.len() == a.len()
    &&& forall|i: int| 0 <= i < a.len() ==> #[trigger] b[i] == (a[i].0.wrapping_add(d), a[i].1.wrapping_add(d))
}

/// Unresolved symbols, the addresses that they are stored at shifted by `d`.
pub open spec fn externs_moved(a: Seq<ExternV>, b: Seq<ExternV>, d: u64) -> bool {
    &&& b.len() == a.len()
    &&& forall|i: int|
        0 <= i < a.len() ==> #[trigger] b[i] == (ExternV { target: a[i].target.wrapping_add(d), ..a[i] })
}

/// Exported symbols, their addresses shifted by `d`.
pub open spec fn exports_moved(a: Seq<(Seq<u8>, u64)>, b: Seq<(Seq<u8>, u64)>, d: u64) -> bool {
    &&& b.len() == a.len()
    &&& forall|i: int| 0 <= i < a.len() ==> #[trigger] b[i] == (a[i].0, a[i].1.wrapping_add(d))
}

/// Segments, their addresses shifted by `d`.
pub open spec fn segments_moved(a: Seq<SegmentV>, b: Seq<SegmentV>, d: u64) -> bool {
    &&& b.len() == a.len()
    &&& forall|i: int|
        0 <= i < a.len() ==> #[trigger] b[i] == (SegmentV { vaddr: a[i].vaddr.wrapping_add(d), ..a[i] })
}

/// What a dynamic section asks for, every address of it shifted by `d`.
pub open spec fn links_moved(a: LinkV, b: LinkV, d: u64) -> bool {
    &&& pairs_moved(a.relocations, b.relocations, d)
    &&& externs_moved(a.externs, b.externs, d)
    &&& pairs_moved(a.irelative, b.irelative, d)
    &&& b.needed == a.needed
    &&& exports_moved(a.exports, b.exports, d)
}

/// An image with every address in it shifted by `d`; the program headers
/// have one only where they are loaded.
pub open spec fn image_moved(a: ImageV, b: ImageV, d: u64) -> bool {
    &&& b.format == a.format
    &&& b.entry == a.entry.wrapping_add(d)
    &&& segments_moved(a.segments, b.segments, d)
    &&& pairs_moved(a.relocations, b.relocations, d)
    &&& externs_moved(a.externs, b.externs, d)
    &&& pairs_moved(a.irelative, b.irelative, d)
    &&& b.needed == a.needed
    &&& exports_moved(a.exports, b.exports, d)
    &&& b.phdr_vaddr == a.phdr_vaddr.wrapping_add(d) || b.phdr_vaddr == 0 && a.phdr_vaddr == 0
    &&& b.phentsize == a.phentsize
    &&& b.phnum == a.phnum
    &&& b.interp == a.interp
}

spec fn both_moved(a: Result<LinkV, &'static str>, b: Result<LinkV, &'static str>, d: u64) -> bool {
    match (a, b) {
        (Ok(x), Ok(y)) => links_moved(x, y, d),
        (Err(e), Err(f)) => e == f,
        _ => false,
    }
}

spec fn headers_moved(a: HeadersV, b: HeadersV, d: u64) -> bool {
    &&& segments_moved(a.segments, b.segments, d)
    &&& b.loads == a.loads
    &&& b.dynamic == a.dynamic
    &&& b.interp == a.interp
}

spec fn moved_tables(t: TablesV, d: u64) -> TablesV {
    TablesV { bias: t.bias.wrapping_add(d), ..t }
}

proof fn lemma_headers(b: Seq<u8>, off: int, size: int, n: int, bias: u64, d: u64)
    ensures
        match (headers_read(b, off, size, n, bias), headers_read(b, off, size, n, bias.wrapping_add(d))) {
            (Ok(x), Ok(y)) => headers_moved(x, y, d),
            (Err(e), Err(f)) => e == f,
            _ => false,
        },
    decreases n,
{
    if n > 0 {
        lemma_headers(b, off, size, n - 1, bias, d);
    }
}

proof fn lemma_rela_step(b: Seq<u8>, t: TablesV, x: LinkV, y: LinkV, at: int, d: u64)
    requires
        links_moved(x, y, d),
    ensures
        both_moved(rela_read(b, t, x, at), rela_read(b, moved_tables(t, d), y, at), d),
{
    let m = moved_tables(t, d);
    assert(crate::elf::symtab_place(m) == crate::elf::symtab_place(t));
    if at + 24 <= b.len() {
        let target = t.bias.wrapping_add(le64(b, at));
        let addend = le64(b, at + 16);
        assert(m.bias.wrapping_add(le64(b, at)) == target.wrapping_add(d));
        assert(m.bias.wrapping_add(addend) == t.bias.wrapping_add(addend).wrapping_add(d));
    }
}

proof fn lemma_rela(b: Seq<u8>, t: TablesV, x: LinkV, y: LinkV, base: int, n: int, d: u64)
    requires
        links_moved(x, y, d),
    ensures
        both_moved(rela_reads(b, t, x, base, n), rela_reads(b, moved_tables(t, d), y, base, n), d),
    decreases n,
{
    if n > 0 {
        lemma_rela(b, t, x, y, base, n - 1, d);
        if let Ok(p) = rela_reads(b, t, x, base, n - 1) {
            let q = rela_reads(b, moved_tables(t, d), y, base, n - 1)->Ok_0;
            lemma_rela_step(b, t, p, q, base + 24 * (n - 1), d);
        }
    }
}

proof fn lemma_relr_bits(
    b: Seq<u8>,
    t: TablesV,
    x: Seq<(u64, u64)>,
    y: Seq<(u64, u64)>,
    site: u64,
    bits: u64,
    d: u64,
)
    requires
        pairs_moved(x, y, d),
    ensures
        match (relr_bits(b, t, x, site, bits), relr_bits(b, moved_tables(t, d), y, site, bits)) {
            (Ok(p), Ok(q)) => pairs_moved(p, q, d),
            (Err(e), Err(f)) => e == f,
            _ => false,
        },
    decreases bits,
{
    if bits != 0 {
        if bits % 2 == 1 {
            let missing = "loader: a DT_RELR bitmap entry doesn't fall inside any PT_LOAD segment";
            if let Ok(p) = relr_site(b, t, x, site, missing) {
                let q = relr_site(b, moved_tables(t, d), y, site, missing)->Ok_0;
                lemma_relr_bits(b, t, p, q, site.wrapping_add(8), bits / 2, d);
            }
        } else {
            lemma_relr_bits(b, t, x, y, site.wrapping_add(8), bits / 2, d);
        }
    }
}

proof fn lemma_relr(b: Seq<u8>, t: TablesV, x: Seq<(u64, u64)>, y: Seq<(u64, u64)>, base: int, n: int, d: u64)
    requires
        pairs_moved(x, y, d),
    ensures
        match (relr_reads(b, t, x, base, n), relr_reads(b, moved_tables(t, d), y, base, n)) {
            (Ok((p, i)), Ok((q, j))) => pairs_moved(p, q, d) && i == j,
            (Err(e), Err(f)) => e == f,
            _ => false,
        },
    decreases n,
{
    if n > 0 {
        lemma_relr(b, t, x, y, base, n - 1, d);
        if let Ok((p, addr)) = relr_reads(b, t, x, base, n - 1) {
            let q = relr_reads(b, moved_tables(t, d), y, base, n - 1)->Ok_0.0;
            if let Ok(word) = crate::elf::at64(b, base + 8 * (n - 1)) {
                lemma_relr_bits(b, t, p, q, addr, word / 2, d);
            }
        }
    }
}

proof fn lemma_plt(b: Seq<u8>, bias: u64, symtab: int, strtab: int, x: LinkV, y: LinkV, base: int, n: int, d: u64)
    requires
        links_moved(x, y, d),
    ensures
        both_moved(
            plt_reads(b, bias, symtab, strtab, x, base, n),
            plt_reads(b, bias.wrapping_add(d), symtab, strtab, y, base, n),
            d,
        ),
    decreases n,
{
    if n > 0 {
        lemma_plt(b, bias, symtab, strtab, x, y, base, n - 1, d);
    }
}

proof fn lemma_exports(
    b: Seq<u8>,
    bias: u64,
    symtab: int,
    strtab: int,
    x: Seq<(Seq<u8>, u64)>,
    y: Seq<(Seq<u8>, u64)>,
    n: int,
    d: u64,
)
    requires
        exports_moved(x, y, d),
    ensures
        match (
            export_reads(b, bias, symtab, strtab, x, n),
            export_reads(b, bias.wrapping_add(d), symtab, strtab, y, n),
        ) {
            (Ok(p), Ok(q)) => exports_moved(p, q, d),
            (Err(e), Err(f)) => e == f,
            _ => false,
        },
    decreases n,
{
    if n > 0 {
        lemma_exports(b, bias, symtab, strtab, x, y, n - 1, d);
    }
}

proof fn lemma_general(b: Seq<u8>, t: TablesV, dynamic: crate::elf::DynamicV, x: LinkV, y: LinkV, d: u64)
    requires
        links_moved(x, y, d),
    ensures
        both_moved(
            general_relocations(b, t, dynamic, x),
            general_relocations(b, moved_tables(t, d), dynamic, y),
            d,
        ),
        both_moved(packed_relocations(b, t, dynamic, x), packed_relocations(b, moved_tables(t, d), dynamic, y), d),
{
    if let (Some(vaddr), Some(size)) = (dynamic.rela, dynamic.rela_size) {
        if let Some(base) = crate::elf::offset_of(t.loads, vaddr) {
            lemma_rela(b, t, x, y, base, size as int / 24, d);
        }
    }
    if let (Some(vaddr), Some(size)) = (dynamic.relr, dynamic.relr_size) {
        if let Some(base) = crate::elf::offset_of(t.loads, vaddr) {
            lemma_relr(b, t, x.relocations, y.relocations, base, size as int / 8, d);
        }
    }
}

proof fn lemma_linkage(b: Seq<u8>, t: TablesV, dynamic: crate::elf::DynamicV, x: LinkV, y: LinkV, d: u64)
    requires
        links_moved(x, y, d),
    ensures
        both_moved(
            linkage_relocations(b, t, dynamic, x),
            linkage_relocations(b, moved_tables(t, d), dynamic, y),
            d,
        ),
        both_moved(exported_symbols(b, t, dynamic, x), exported_symbols(b, moved_tables(t, d), dynamic, y), d),
{
    let moved = moved_tables(t, d);
    assert(crate::elf::symtab_place(moved) == crate::elf::symtab_place(t));
    if let (Some(vaddr), Some(size)) = (dynamic.jmprel, dynamic.pltrel_size) {
        if let (Some(symtab), Some(strtab), Some(base)) = (
            crate::elf::symtab_place(t),
            t.strtab,
            crate::elf::offset_of(t.loads, vaddr),
        ) {
            lemma_plt(b, t.bias, symtab, strtab, x, y, base, size as int / 24, d);
        }
    }
    if let (Some(symtab), Some(hash), Some(strtab)) = (dynamic.symtab, dynamic.hash, t.strtab) {
        if let (Some(symtab), Some(hash)) = (
            crate::elf::offset_of(t.loads, symtab),
            crate::elf::offset_of(t.loads, hash),
        ) {
            if let Ok(count) = crate::elf::at32(b, hash + 4) {
                lemma_exports(b, t.bias, symtab, strtab, x.exports, y.exports, count as int, d);
            }
        }
    }
}

proof fn lemma_links(b: Seq<u8>, loads: Seq<Load>, dynamic: crate::elf::DynamicV, bias: u64, d: u64)
    ensures
        both_moved(links_read(b, loads, dynamic, bias), links_read(b, loads, dynamic, bias.wrapping_add(d)), d),
{
    if let Ok(strtab) = crate::elf::strtab_place(loads, dynamic.strtab) {
        if let Ok(needed) = crate::elf::needed_names(b, strtab, dynamic.needed, dynamic.needed.len() as int) {
            let t = TablesV { loads, symtab: dynamic.symtab, strtab, bias };
            let m = moved_tables(t, d);
            let x = LinkV { needed, ..no_links() };
            lemma_general(b, t, dynamic, x, x, d);
            if let Ok(x1) = general_relocations(b, t, dynamic, x) {
                let y1 = general_relocations(b, m, dynamic, x)->Ok_0;
                lemma_general(b, t, dynamic, x1, y1, d);
                if let Ok(x2) = packed_relocations(b, t, dynamic, x1) {
                    let y2 = packed_relocations(b, m, dynamic, y1)->Ok_0;
                    lemma_linkage(b, t, dynamic, x2, y2, d);
                    if let Ok(x3) = linkage_relocations(b, t, dynamic, x2) {
                        let y3 = linkage_relocations(b, m, dynamic, y2)->Ok_0;
                        lemma_linkage(b, t, dynamic, x3, y3, d);
                    }
                }
            }
        }
    }
}

proof fn lemma_headers_vaddr(loads: Seq<Load>, bias: u64, off: u64, d: u64)
    ensures
        headers_vaddr(loads, bias.wrapping_add(d), off) == headers_vaddr(loads, bias, off).wrapping_add(d)
            || headers_vaddr(loads, bias.wrapping_add(d), off) == 0 && headers_vaddr(loads, bias, off) == 0,
    decreases loads.len(),
{
    if loads.len() > 0 && loads[0].1 != 0 {
        lemma_headers_vaddr(loads.drop_first(), bias, off, d);
    }
}

/// One file loaded at two places gives two images that differ by the shift
/// between the places alone: every address moves by it, and nothing else
/// changes. A file that is refused at one place is refused at the other, for
/// the same reason.
pub proof fn law_places_differ_by_the_shift(b: Seq<u8>, bias: u64, d: u64)
    ensures
        match (elf_image(b, Some(bias)), elf_image(b, Some(bias.wrapping_add(d)))) {
            (Ok(x), Ok(y)) => image_moved(x, y, d),
            (Err(e), Err(f)) => e == f,
            _ => false,
        },
{
    reveal(elf_image);
    let off = le64(b, 32) as int;
    let size = le16(b, 54) as int;
    let n = le16(b, 56) as int;
    lemma_headers(b, off, size, n, bias, d);
    if let Ok(h) = headers_read(b, off, size, n, bias) {
        lemma_headers_vaddr(h.loads, bias, le64(b, 32), d);
        if let Some((start, len)) = h.dynamic {
            if let Ok(dynamic) = crate::elf::dynamic_read(b, crate::elf::no_dynamic(), start as int, len as int) {
                lemma_links(b, h.loads, dynamic, bias, d);
            }
        }
    }
}

} // verus!
