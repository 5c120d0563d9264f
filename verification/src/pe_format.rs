//! What the bytes of a PE32+ file for x86_64 mean, and that taking one apart
//! finds just that.
use crate::elf_format::{half, law_numbers, quad, sum, word};
use crate::le::le32;
use crate::loader::SegmentV;
use crate::pe::{pe_headers, pe_image, section_at, section_segment, section_segments, sections_at, SectionHeader};
use vstd::prelude::*;

verus! {

/// How much memory the section with its header at `at` takes: what byte 8
/// says, or its size in the file, at byte 16, if that is zero.
pub open spec fn section_size(b: Seq<u8>, at: int) -> int {
    if word(b, at + 8) != 0 {
        word(b, at + 8)
    } else {
        word(b, at + 16)
    }
}

/// How many bytes of a section are in the file: none if byte 20 gives no
/// place, and never more than it takes in memory.
pub open spec fn section_bytes(b: Seq<u8>, at: int) -> int {
    if word(b, at + 20) == 0 {
        0
    } else if word(b, at + 16) <= section_size(b, at) {
        word(b, at + 16)
    } else {
        section_size(b, at)
    }
}

/// The segment that the section header at `at` asks for: its address is at
/// byte 12, counted from where the file is loaded, and bit 31 of the flags at
/// byte 36 is that it may be written.
pub open spec fn asked_for(b: Seq<u8>, at: int, base: int, seg: SegmentV) -> bool {
    &&& seg.vaddr == sum(base, word(b, at + 12))
    &&& seg.mem_size == section_size(b, at)
    &&& seg.writable == (word(b, at + 36) / 0x8000_0000 == 1)
    &&& word(b, at + 20) + section_bytes(b, at) <= b.len() || section_bytes(b, at) == 0
    &&& seg.bytes == b.subrange(word(b, at + 20), word(b, at + 20) + section_bytes(b, at)) || section_bytes(b, at) == 0
        && seg.bytes.len() == 0
}

/// How many of the first `n` sections take memory.
pub open spec fn sized_among(b: Seq<u8>, table: int, n: int) -> int
    decreases n,
{
    if n <= 0 {
        0
    } else {
        sized_among(b, table, n - 1) + if section_size(b, table + 40 * (n - 1)) != 0 {
            1int
        } else {
            0
        }
    }
}

spec fn header_of(b: Seq<u8>, at: int, s: SectionHeader) -> bool {
    &&& s.virtual_size == word(b, at + 8)
    &&& s.virtual_address == word(b, at + 12)
    &&& s.size_of_raw_data == word(b, at + 16)
    &&& s.ptr_to_raw_data == word(b, at + 20)
    &&& s.characteristics == word(b, at + 36)
}

proof fn lemma_section(b: Seq<u8>, at: int)
    requires
        section_at(b, at) is Ok,
    ensures
        header_of(b, at, section_at(b, at)->Ok_0),
{
    law_numbers(b, at + 8);
    law_numbers(b, at + 12);
    law_numbers(b, at + 16);
    law_numbers(b, at + 20);
    law_numbers(b, at + 36);
}

proof fn lemma_sections(b: Seq<u8>, table: int, n: int)
    requires
        0 <= n,
        sections_at(b, table, n) is Ok,
    ensures
        ({
            let s = sections_at(b, table, n)->Ok_0;
            s.len() == n && forall|i: int| 0 <= i < n ==> header_of(b, table + 40 * i, #[trigger] s[i])
        }),
    decreases n,
{
    if n > 0 {
        lemma_sections(b, table, n - 1);
        lemma_section(b, table + 40 * (n - 1));
    }
}

proof fn lemma_segment(b: Seq<u8>, base: u64, at: int, s: SectionHeader)
    requires
        header_of(b, at, s),
        section_segment(b, base, s) is Ok,
    ensures
        match section_segment(b, base, s)->Ok_0 {
            None => section_size(b, at) == 0,
            Some(seg) => section_size(b, at) != 0 && asked_for(b, at, base as int, seg),
        },
{
    let v = s.virtual_address as u64;
    assert(base.wrapping_add(v) == sum(base as int, v as int));
    if let Some(seg) = section_segment(b, base, s)->Ok_0 {
        if section_bytes(b, at) == 0 {
            assert(seg.bytes.len() == 0);
        }
    }
}

proof fn lemma_segments(b: Seq<u8>, base: u64, table: int, sections: Seq<SectionHeader>, n: int, i: int)
    requires
        0 <= i < n <= sections.len(),
        forall|k: int| 0 <= k < sections.len() ==> header_of(b, table + 40 * k, #[trigger] sections[k]),
        section_segments(b, base, sections, n) is Ok,
    ensures
        ({
            let x = section_segments(b, base, sections, n)->Ok_0;
            let k = sized_among(b, table, i);
            &&& x.len() == sized_among(b, table, n)
            &&& 0 <= k <= x.len()
            &&& section_size(b, table + 40 * i) != 0 ==> k < x.len() && asked_for(
                b,
                table + 40 * i,
                base as int,
                x[k],
            )
        }),
    decreases n,
{
    lemma_segment(b, base, table + 40 * (n - 1), sections[n - 1]);
    if n > 1 {
        if i < n - 1 {
            lemma_segments(b, base, table, sections, n - 1, i);
        } else {
            lemma_segments(b, base, table, sections, n - 1, 0);
        }
    }
}

/// The segments of a PE file are its sections that take memory, in their
/// order. Byte 0x3C says where its header starts, with four bytes before it;
/// how many sections there are is at byte 2 of that, and how long the part
/// between it and their table is at byte 16. That part starts with 0x20B; the
/// entry is at its byte 16 and where the file is to be loaded at its byte 24.
#[verifier::spinoff_prover]
#[verifier::rlimit(60)]
pub proof fn law_pe_segments(b: Seq<u8>, i: int)
    requires
        pe_image(b) is Ok,
        0 <= i < half(b, word(b, 0x3C) + 6),
    ensures
        ({
            let x = pe_image(b)->Ok_0;
            let coff = word(b, 0x3C) + 4;
            let opt = coff + 20;
            let base = quad(b, opt + 24);
            let table = opt + half(b, coff + 16);
            &&& b[0] == 0x4D && b[1] == 0x5A
            &&& b[coff - 4] == 0x50 && b[coff - 3] == 0x45 && b[coff - 2] == 0 && b[coff - 1] == 0
            &&& half(b, coff) == 0x8664
            &&& half(b, opt) == 0x20B
            &&& x.entry == sum(base, word(b, opt + 16))
            &&& x.segments.len() == sized_among(b, table, half(b, coff + 2))
            &&& x.segments.len() > 0
            &&& x.relocations.len() == 0 && x.externs.len() == 0 && x.needed.len() == 0 && x.interp is None
            &&& section_size(b, table + 40 * i) != 0 ==> {
                let k = sized_among(b, table, i);
                0 <= k < x.segments.len() && asked_for(b, table + 40 * i, base, x.segments[k])
            }
        }),
{
    lemma_pe_parts(b);
    let h = pe_headers(b)->Ok_0;
    let coff = word(b, 0x3C) + 4;
    let opt = coff + 20;
    let table = opt + half(b, coff + 16);
    lemma_sections(b, table, half(b, coff + 2));
    lemma_segments(b, h.image_base, table, h.sections, h.sections.len() as int, i);
}

#[verifier::spinoff_prover]
#[verifier::rlimit(60)]
proof fn lemma_pe_parts(b: Seq<u8>)
    requires
        pe_image(b) is Ok,
    ensures
        ({
            let x = pe_image(b)->Ok_0;
            let h = pe_headers(b)->Ok_0;
            let coff = word(b, 0x3C) + 4;
            let opt = coff + 20;
            &&& pe_headers(b) is Ok
            &&& b[0] == 0x4D && b[1] == 0x5A
            &&& b[coff - 4] == 0x50 && b[coff - 3] == 0x45 && b[coff - 2] == 0 && b[coff - 1] == 0
            &&& half(b, coff) == 0x8664
            &&& half(b, opt) == 0x20B
            &&& h.image_base == quad(b, opt + 24)
            &&& sections_at(b, opt + half(b, coff + 16), half(b, coff + 2)) == Ok::<Seq<SectionHeader>, &'static str>(
                h.sections,
            )
            &&& section_segments(b, h.image_base, h.sections, h.sections.len() as int) == Ok::<
                Seq<SegmentV>,
                &'static str,
            >(x.segments)
            &&& x.segments.len() > 0
            &&& x.entry == sum(h.image_base as int, word(b, opt + 16))
            &&& x.relocations.len() == 0 && x.externs.len() == 0 && x.needed.len() == 0 && x.interp is None
        }),
{
    reveal(pe_image);
    let coff = le32(b, 0x3C) + 4;
    let opt = coff + 20;
    let h = pe_headers(b)->Ok_0;
    let e = h.entry_rva as u64;
    assert(h.image_base.wrapping_add(e) == sum(h.image_base as int, e as int));
    law_numbers(b, 0x3C);
    law_numbers(b, coff);
    law_numbers(b, coff + 2);
    law_numbers(b, coff + 16);
    law_numbers(b, opt);
    law_numbers(b, opt + 16);
    law_numbers(b, opt + 24);
}

} // verus!
