//! What the bytes of an ELF64 file for x86_64 mean, and that taking one apart
//! finds just that: its segments, its relocations, its symbols and its
//! dynamic entries.
use crate::elf::{
    dynamic_read, dynamic_with, elf_image, export_reads, header_read, headers_read, plt_read, plt_reads, rela_read,
    rela_reads, offset_of, relr_bits, relr_reads, relr_site, symbol_name, text_at, DynamicV, HeadersV, LinkV, TablesV,
};
use crate::le::{le16, le32, le64};
use crate::loader::SegmentV;
use vstd::prelude::*;

verus! {

// ---- Numbers in a file ----

/// The number in two bytes, low byte first.
#[verifier::opaque]
pub open spec fn half(b: Seq<u8>, at: int) -> int {
    b[at] + 0x100 * b[at + 1]
}

/// The number in four bytes, low byte first.
#[verifier::opaque]
pub open spec fn word(b: Seq<u8>, at: int) -> int {
    b[at] + 0x100 * b[at + 1] + 0x1_0000 * b[at + 2] + 0x100_0000 * b[at + 3]
}

/// The number in eight bytes, low byte first.
#[verifier::opaque]
pub open spec fn quad(b: Seq<u8>, at: int) -> int {
    b[at] + 0x100 * b[at + 1] + 0x1_0000 * b[at + 2] + 0x100_0000 * b[at + 3] + 0x1_0000_0000 * b[at + 4]
        + 0x100_0000_0000 * b[at + 5] + 0x1_0000_0000_0000 * b[at + 6] + 0x100_0000_0000_0000 * b[at + 7]
}

/// Numbers are read low byte first.
pub proof fn law_numbers(b: Seq<u8>, at: int)
    ensures
        le16(b, at) == half(b, at),
        le32(b, at) == word(b, at),
        le64(b, at) == quad(b, at),
{
    reveal(half);
    reveal(word);
    reveal(quad);
}

/// A sum of two addresses: it wraps around at 64 bits.
pub open spec fn sum(a: int, b: int) -> int {
    (a + b) % 0x1_0000_0000_0000_0000
}

proof fn lemma_sum(a: u64, b: u64)
    ensures
        a.wrapping_add(b) == sum(a as int, b as int),
        b.wrapping_add(a) == sum(a as int, b as int),
{
}

// ---- Program headers ----

/// How many of the first `n` program headers are of segments to load (1).
pub open spec fn loads_among(b: Seq<u8>, off: int, size: int, n: int) -> int
    decreases n,
{
    if n <= 0 {
        0
    } else {
        loads_among(b, off, size, n - 1) + if word(b, off + (n - 1) * size) == 1 {
            1int
        } else {
            0
        }
    }
}

/// The segment that a program header at `ph` asks for: its flags are at byte
/// 4, of which bit 1 is that it may be written; where it lies in the file is
/// at 8, its address at 16, its size in the file at 32 and in memory at 40.
pub open spec fn asked_for(b: Seq<u8>, ph: int, bias: int, seg: SegmentV) -> bool {
    &&& seg.vaddr == sum(quad(b, ph + 16), bias)
    &&& seg.mem_size == quad(b, ph + 40)
    &&& seg.writable == (word(b, ph + 4) / 2 % 2 == 1)
    &&& quad(b, ph + 32) <= quad(b, ph + 40)
    &&& quad(b, ph + 8) + quad(b, ph + 32) <= b.len()
    &&& seg.bytes == b.subrange(quad(b, ph + 8), quad(b, ph + 8) + quad(b, ph + 32))
}

proof fn lemma_header(b: Seq<u8>, x: HeadersV, ph: int, bias: u64)
    requires
        0 <= ph,
        header_read(b, x, ph, bias) is Ok,
    ensures
        ({
            let y = header_read(b, x, ph, bias)->Ok_0;
            if word(b, ph) == 1 {
                &&& y.segments.len() == x.segments.len() + 1
                &&& y.segments.drop_last() == x.segments
                &&& asked_for(b, ph, bias as int, y.segments.last())
                &&& y.loads == x.loads.push(
                    (quad(b, ph + 16) as u64, quad(b, ph + 8) as u64, quad(b, ph + 32) as u64),
                )
            } else {
                y.segments == x.segments && y.loads == x.loads
            }
        }),
{
    law_numbers(b, ph);
    law_numbers(b, ph + 4);
    law_numbers(b, ph + 8);
    law_numbers(b, ph + 16);
    law_numbers(b, ph + 32);
    law_numbers(b, ph + 40);
    let y = header_read(b, x, ph, bias)->Ok_0;
    if word(b, ph) == 1 {
        assert(y.segments.drop_last() =~= x.segments);
    }
}

#[verifier::spinoff_prover]
proof fn lemma_headers(b: Seq<u8>, off: int, size: int, n: int, bias: u64, i: int)
    requires
        0 <= i < n,
        0 <= off,
        0 <= size,
        headers_read(b, off, size, n, bias) is Ok,
    ensures
        ({
            let x = headers_read(b, off, size, n, bias)->Ok_0;
            let ph = off + i * size;
            let k = loads_among(b, off, size, i);
            &&& x.segments.len() == loads_among(b, off, size, n)
            &&& x.loads.len() == x.segments.len()
            &&& 0 <= k <= x.segments.len()
            &&& word(b, ph) == 1 ==> {
                &&& k < x.segments.len()
                &&& asked_for(b, ph, bias as int, x.segments[k])
                &&& x.loads[k] == (quad(b, ph + 16) as u64, quad(b, ph + 8) as u64, quad(b, ph + 32) as u64)
            }
        }),
    decreases n,
{
    let ph = off + (n - 1) * size;
    assert(0 <= (n - 1) * size) by (nonlinear_arith)
        requires
            0 <= n - 1,
            0 <= size,
    ;
    let x = headers_read(b, off, size, n - 1, bias)->Ok_0;
    let y = headers_read(b, off, size, n, bias)->Ok_0;
    lemma_header(b, x, ph, bias);
    if n > 1 {
        if i < n - 1 {
            lemma_headers(b, off, size, n - 1, bias, i);
            let k = loads_among(b, off, size, i);
            if k < x.segments.len() && word(b, ph) == 1 {
                assert(y.segments[k] == y.segments.drop_last()[k]);
            }
        } else {
            lemma_headers(b, off, size, n - 1, bias, 0);
        }
    }
}

proof fn lemma_elf_parts(b: Seq<u8>, forced: Option<u64>)
    requires
        elf_image(b, forced) is Ok,
    ensures
        ({
            let x = elf_image(b, forced)->Ok_0;
            let bias = crate::elf::bias_of(b, forced);
            let h = headers_read(b, le64(b, 32) as int, le16(b, 54) as int, le16(b, 56) as int, bias);
            &&& crate::elf::header_checked(b) is Ok
            &&& h is Ok
            &&& x.segments == (h->Ok_0).segments
            &&& x.segments.len() > 0
            &&& x.entry == le64(b, 24).wrapping_add(bias)
            &&& x.phentsize == le16(b, 54)
            &&& x.phnum == le16(b, 56)
        }),
{
    reveal(elf_image);
}

/// The segments of an ELF file are those of its program headers to load, in
/// their order: as many as there are such headers, each at the address, of
/// the size, with the bytes and with the right to be written that its header
/// says. The headers start where byte 32 says, byte 54 gives the size of one
/// and byte 56 how many there are. The entry is at byte 24. A file that can
/// lie anywhere (its kind at byte 16 is 3) is shifted to its base.
#[verifier::spinoff_prover]
#[verifier::rlimit(80)]
pub proof fn law_elf_segments(b: Seq<u8>, forced: Option<u64>, i: int)
    requires
        elf_image(b, forced) is Ok,
        0 <= i < half(b, 56),
    ensures
        ({
            let x = elf_image(b, forced)->Ok_0;
            let bias: int = match forced {
                Some(to) => to as int,
                None => if half(b, 16) == 3 {
                    0x48_0000_0000
                } else {
                    0
                },
            };
            let off = quad(b, 32);
            let size = half(b, 54);
            &&& b.len() >= 64
            &&& b[0] == 0x7F && b[1] == 0x45 && b[2] == 0x4C && b[3] == 0x46
            &&& b[4] == 2 && b[5] == 1 && half(b, 18) == 0x3E
            &&& half(b, 16) == 2 || half(b, 16) == 3
            &&& x.entry == sum(quad(b, 24), bias)
            &&& x.phnum == half(b, 56)
            &&& x.phentsize == size
            &&& x.segments.len() == loads_among(b, off, size, half(b, 56))
            &&& x.segments.len() > 0
            &&& word(b, off + i * size) == 1 ==> {
                let k = loads_among(b, off, size, i);
                0 <= k < x.segments.len() && asked_for(b, off + i * size, bias, x.segments[k])
            }
        }),
{
    lemma_elf_parts(b, forced);
    law_numbers(b, 16);
    law_numbers(b, 18);
    law_numbers(b, 24);
    law_numbers(b, 32);
    law_numbers(b, 54);
    law_numbers(b, 56);
    let bias = crate::elf::bias_of(b, forced);
    lemma_sum(bias, le64(b, 24));
    lemma_headers(b, quad(b, 32), half(b, 54), half(b, 56), bias, i);
}

// ---- Relocations ----

/// The zero-terminated text at a place of a file.
pub open spec fn text_from(b: Seq<u8>, at: int, text: Seq<u8>) -> bool {
    &&& 0 <= at
    &&& at + text.len() < b.len()
    &&& b.subrange(at, at + text.len()) == text
    &&& b[at + text.len()] == 0
    &&& forall|i: int| 0 <= i < text.len() ==> text[i] != 0
}

pub(crate) proof fn lemma_nul(s: Seq<u8>)
    ensures
        match crate::elf::first_nul(s) {
            None => forall|i: int| 0 <= i < s.len() ==> s[i] != 0,
            Some(n) => 0 <= n < s.len() && s[n] == 0 && forall|i: int| 0 <= i < n ==> s[i] != 0,
        },
    decreases s.len(),
{
    if s.len() > 0 && s[0] != 0 {
        let rest = s.drop_first();
        lemma_nul(rest);
        assert forall|i: int| 1 <= i < s.len() implies s[i] == rest[i - 1] by {}
    }
}

/// Text that is read ends at its first zero.
pub proof fn law_text(b: Seq<u8>, at: int)
    requires
        0 <= at,
        text_at(b, at) is Ok,
    ensures
        text_from(b, at, text_at(b, at)->Ok_0),
{
    let rest = b.skip(at);
    lemma_nul(rest);
    let n = crate::elf::first_nul(rest)->0;
    let text = text_at(b, at)->Ok_0;
    assert(b.subrange(at, at + text.len()) =~= text);
    assert(b[at + n] == rest[n]);
    assert forall|i: int| 0 <= i < text.len() implies text[i] != 0 by {
        assert(text[i] == rest[i]);
    }
}

/// What a relocation entry of 24 bytes comes to: where is at byte 0, its kind
/// in the four bytes from 8 on, its symbol in those from 12 on and its addend
/// at 16. A relative one (8) makes the word there the addend, shifted. One
/// that refers to a symbol (1, 6, 7) names it by the symbol table, whose
/// entries of 24 bytes start with where their name is among the texts. One
/// that takes running code (37) is kept apart.
pub open spec fn entry_done(
    b: Seq<u8>,
    at: int,
    bias: int,
    symtab: Option<int>,
    strtab: Option<int>,
    x: LinkV,
) -> bool {
    let kind = word(b, at + 8);
    let symbol = word(b, at + 12);
    let target = sum(bias, quad(b, at)) as u64;
    if kind == 8 {
        x.relocations.contains((target, sum(bias, quad(b, at + 16)) as u64))
    } else if kind == 37 {
        x.irelative.contains((target, sum(bias, quad(b, at + 16)) as u64))
    } else {
        &&& symtab is Some && strtab is Some
        &&& exists|i: int|
            0 <= i < x.externs.len() && (#[trigger] x.externs[i]).target == target && x.externs[i].kind == kind
                && x.externs[i].addend == quad(b, at + 16) && text_from(
                b,
                strtab->0 + word(b, symtab->0 + symbol * 24),
                x.externs[i].name,
            )
    }
}

/// What is asked for in `x` is asked for in `y` too.
pub open spec fn asks_more(x: LinkV, y: LinkV) -> bool {
    &&& forall|p: (u64, u64)| #[trigger] x.relocations.contains(p) ==> y.relocations.contains(p)
    &&& forall|p: (u64, u64)| #[trigger] x.irelative.contains(p) ==> y.irelative.contains(p)
    &&& x.externs.len() <= y.externs.len()
    &&& forall|i: int| 0 <= i < x.externs.len() ==> #[trigger] x.externs[i] == y.externs[i]
}

proof fn lemma_pushed<T>(s: Seq<T>, v: T)
    ensures
        s.push(v).contains(v),
        forall|p: T| #[trigger] s.contains(p) ==> s.push(v).contains(p),
{
    assert(s.push(v)[s.len() as int] == v);
    assert forall|p: T| #[trigger] s.contains(p) implies s.push(v).contains(p) by {
        let i = choose|i: int| 0 <= i < s.len() && s[i] == p;
        assert(s.push(v)[i] == p);
    }
}

proof fn lemma_halves(v: u64, low: u32, high: u32)
    requires
        v == low + 0x1_0000_0000 * high,
    ensures
        v % 0x1_0000_0000 == low,
        v / 0x1_0000_0000 == high,
{
}

proof fn lemma_two_words(b: Seq<u8>, at: int)
    ensures
        le64(b, at) == le32(b, at) + 0x1_0000_0000 * le32(b, at + 4),
{
}

#[verifier::spinoff_prover]
proof fn lemma_entry_words(b: Seq<u8>, at: int)
    ensures
        le64(b, at + 8) % 0x1_0000_0000 == word(b, at + 8),
        le64(b, at + 8) / 0x1_0000_0000 == word(b, at + 12),
        le64(b, at) == quad(b, at),
        le64(b, at + 16) == quad(b, at + 16),
{
    law_numbers(b, at);
    law_numbers(b, at + 16);
    let low = le32(b, at + 8);
    let high = le32(b, at + 12);
    let v = le64(b, at + 8);
    assert(low == word(b, at + 8)) by {
        law_numbers(b, at + 8);
    }
    assert(high == word(b, at + 12)) by {
        law_numbers(b, at + 12);
    }
    assert(v == low + 0x1_0000_0000 * high) by {
        lemma_two_words(b, at + 8);
    }
    lemma_halves(v, low, high);
}

proof fn lemma_symbol(b: Seq<u8>, symtab: int, strtab: int, sym: int)
    requires
        0 <= symtab,
        0 <= strtab,
        0 <= sym,
        symbol_name(b, symtab, strtab, sym) is Ok,
    ensures
        text_from(b, strtab + word(b, symtab + sym * 24), symbol_name(b, symtab, strtab, sym)->Ok_0),
{
    law_numbers(b, symtab + sym * 24);
    law_text(b, strtab + le32(b, symtab + sym * 24));
}

#[verifier::spinoff_prover]
#[verifier::rlimit(60)]
proof fn lemma_rela(b: Seq<u8>, t: TablesV, x: LinkV, at: int)
    requires
        0 <= at,
        rela_read(b, t, x, at) is Ok,
        crate::elf::symtab_place(t) matches Some(o) ==> 0 <= o,
        t.strtab matches Some(o) ==> 0 <= o,
    ensures
        asks_more(x, rela_read(b, t, x, at)->Ok_0),
        entry_done(b, at, t.bias as int, crate::elf::symtab_place(t), t.strtab, rela_read(b, t, x, at)->Ok_0),
{
    lemma_entry_words(b, at);
    let y = rela_read(b, t, x, at)->Ok_0;
    let kind = word(b, at + 8);
    let target = t.bias.wrapping_add(le64(b, at));
    let value = t.bias.wrapping_add(le64(b, at + 16));
    lemma_sum(t.bias, le64(b, at));
    lemma_sum(t.bias, le64(b, at + 16));
    if kind == 8 {
        lemma_pushed(x.relocations, (target, value));
    } else if kind == 37 {
        lemma_pushed(x.irelative, (target, value));
    } else {
        let symtab = crate::elf::symtab_place(t)->0;
        lemma_symbol(b, symtab, t.strtab->0, word(b, at + 12));
        assert(y.externs[x.externs.len() as int].target == target);
    }
}

pub(crate) proof fn lemma_asks_more(b: Seq<u8>, at: int, bias: int, symtab: Option<int>, strtab: Option<int>, x: LinkV, y: LinkV)
    requires
        asks_more(x, y),
        entry_done(b, at, bias, symtab, strtab, x),
    ensures
        entry_done(b, at, bias, symtab, strtab, y),
{
    let kind = word(b, at + 8);
    if kind != 8 && kind != 37 {
        let i = choose|i: int|
            0 <= i < x.externs.len() && (#[trigger] x.externs[i]).target == sum(bias, quad(b, at)) as u64
                && x.externs[i].kind == kind && x.externs[i].addend == quad(b, at + 16) && text_from(
                b,
                strtab->0 + word(b, symtab->0 + word(b, at + 12) * 24),
                x.externs[i].name,
            );
        assert(y.externs[i] == x.externs[i]);
    }
}

/// Every entry of a relocation table is taken as what it is.
pub proof fn law_relocation_table(b: Seq<u8>, t: TablesV, x: LinkV, base: int, n: int, i: int)
    requires
        0 <= base,
        0 <= i < n,
        rela_reads(b, t, x, base, n) is Ok,
        crate::elf::symtab_place(t) matches Some(o) ==> 0 <= o,
        t.strtab matches Some(o) ==> 0 <= o,
    ensures
        entry_done(
            b,
            base + 24 * i,
            t.bias as int,
            crate::elf::symtab_place(t),
            t.strtab,
            rela_reads(b, t, x, base, n)->Ok_0,
        ),
        word(b, base + 24 * i + 8) == 1 || word(b, base + 24 * i + 8) == 6 || word(b, base + 24 * i + 8) == 8 || word(
            b,
            base + 24 * i + 8,
        ) == 37,
    decreases n,
{
    let y = rela_reads(b, t, x, base, n - 1)->Ok_0;
    let at = base + 24 * (n - 1);
    lemma_rela(b, t, y, at);
    lemma_entry_words(b, at);
    if i < n - 1 {
        law_relocation_table(b, t, x, base, n - 1, i);
        lemma_asks_more(
            b,
            base + 24 * i,
            t.bias as int,
            crate::elf::symtab_place(t),
            t.strtab,
            y,
            rela_reads(b, t, x, base, n)->Ok_0,
        );
    }
}

pub(crate) proof fn lemma_plt(b: Seq<u8>, bias: u64, symtab: int, strtab: int, x: LinkV, at: int)
    requires
        0 <= at,
        0 <= symtab,
        0 <= strtab,
        plt_read(b, bias, symtab, strtab, x, at) is Ok,
    ensures
        word(b, at + 8) == 7,
        asks_more(x, plt_read(b, bias, symtab, strtab, x, at)->Ok_0),
        entry_done(
            b,
            at,
            bias as int,
            Some(symtab),
            Some(strtab),
            plt_read(b, bias, symtab, strtab, x, at)->Ok_0,
        ),
{
    lemma_entry_words(b, at);
    let y = plt_read(b, bias, symtab, strtab, x, at)->Ok_0;
    let target = bias.wrapping_add(le64(b, at));
    lemma_sum(bias, le64(b, at));
    lemma_symbol(b, symtab, strtab, word(b, at + 12));
    assert(y.externs[x.externs.len() as int].target == target);
}

/// Every entry of the table for calls into libraries refers to a symbol (7).
pub proof fn law_linkage_table(b: Seq<u8>, bias: u64, symtab: int, strtab: int, x: LinkV, base: int, n: int, i: int)
    requires
        0 <= base,
        0 <= symtab,
        0 <= strtab,
        0 <= i < n,
        plt_reads(b, bias, symtab, strtab, x, base, n) is Ok,
    ensures
        word(b, base + 24 * i + 8) == 7,
        entry_done(
            b,
            base + 24 * i,
            bias as int,
            Some(symtab),
            Some(strtab),
            plt_reads(b, bias, symtab, strtab, x, base, n)->Ok_0,
        ),
    decreases n,
{
    let y = plt_reads(b, bias, symtab, strtab, x, base, n - 1)->Ok_0;
    let z = plt_reads(b, bias, symtab, strtab, x, base, n)->Ok_0;
    let at = base + 24 * (n - 1);
    lemma_plt(b, bias, symtab, strtab, y, at);
    if i < n - 1 {
        law_linkage_table(b, bias, symtab, strtab, x, base, n - 1, i);
        lemma_asks_more(b, base + 24 * i, bias as int, Some(symtab), Some(strtab), y, z);
    }
}

// ---- Symbols ----

/// Whether symbol `i` of a symbol table is one that others can refer to: it
/// has a name, is defined in this file (the number at byte 6 is not zero) and
/// is not local (the upper half of byte 4 is not zero).
pub open spec fn is_exported(b: Seq<u8>, symtab: int, i: int) -> bool {
    let at = symtab + 24 * i;
    word(b, at) != 0 && half(b, at + 6) != 0 && b[at + 4] / 16 != 0
}

/// Every symbol that others can refer to is exported under its name, at the
/// address that is at its byte 8, shifted.
pub proof fn law_exports(b: Seq<u8>, bias: u64, symtab: int, strtab: int, x: Seq<(Seq<u8>, u64)>, n: int, i: int)
    requires
        0 <= symtab,
        0 <= strtab,
        0 <= i < n,
        export_reads(b, bias, symtab, strtab, x, n) is Ok,
        is_exported(b, symtab, i),
    ensures
        ({
            let y = export_reads(b, bias, symtab, strtab, x, n)->Ok_0;
            let at = symtab + 24 * i;
            exists|k: int|
                0 <= k < y.len() && (#[trigger] y[k]).1 == sum(bias as int, quad(b, at + 8)) && text_from(
                    b,
                    strtab + word(b, at),
                    y[k].0,
                )
        }),
    decreases n,
{
    let y = export_reads(b, bias, symtab, strtab, x, n - 1)->Ok_0;
    let z = export_reads(b, bias, symtab, strtab, x, n)->Ok_0;
    let at = symtab + 24 * (n - 1);
    law_numbers(b, at);
    law_numbers(b, at + 6);
    law_numbers(b, at + 8);
    if i < n - 1 {
        law_exports(b, bias, symtab, strtab, x, n - 1, i);
        let p = symtab + 24 * i;
        let k = choose|k: int|
            0 <= k < y.len() && (#[trigger] y[k]).1 == sum(bias as int, quad(b, p + 8)) && text_from(
                b,
                strtab + word(b, p),
                y[k].0,
            );
        assert(z[k] == y[k]);
    } else {
        law_text(b, strtab + le32(b, at));
        assert(z[y.len() as int].1 == sum(bias as int, quad(b, at + 8)));
    }
}

// ---- The dynamic section ----

/// What is known under a tag of a dynamic section.
pub open spec fn under_tag(x: DynamicV, tag: int) -> Option<u64> {
    if tag == 2 {
        x.pltrel_size
    } else if tag == 4 {
        x.hash
    } else if tag == 5 {
        x.strtab
    } else if tag == 6 {
        x.symtab
    } else if tag == 7 {
        x.rela
    } else if tag == 8 {
        x.rela_size
    } else if tag == 23 {
        x.jmprel
    } else if tag == 35 {
        x.relr_size
    } else if tag == 36 {
        x.relr
    } else if tag == 37 {
        x.relr_ent
    } else {
        None
    }
}

/// The entries of a dynamic section: sixteen bytes each, a tag and a value,
/// up to one with tag zero.
pub open spec fn dynamic_length(b: Seq<u8>, off: int, left: int) -> int
    decreases left,
{
    if left < 16 || quad(b, off) == 0 {
        0
    } else {
        1 + dynamic_length(b, off + 16, left - 16)
    }
}

proof fn lemma_dynamic_length(b: Seq<u8>, off: int, left: int)
    ensures
        0 <= dynamic_length(b, off, left),
    decreases left,
{
    if !(left < 16 || quad(b, off) == 0) {
        lemma_dynamic_length(b, off + 16, left - 16);
    }
}

/// The value of the last entry with a tag counts; of the entries that name a
/// needed library (1), all do, in their order.
pub proof fn law_dynamic(b: Seq<u8>, x: DynamicV, off: int, left: int, i: int)
    requires
        0 <= off,
        dynamic_read(b, x, off, left) is Ok,
        0 <= i < dynamic_length(b, off, left),
    ensures
        ({
            let y = dynamic_read(b, x, off, left)->Ok_0;
            let at = off + 16 * i;
            let tag = quad(b, at);
            let known = tag == 2 || tag == 4 || tag == 5 || tag == 6 || tag == 7 || tag == 8 || tag == 23 || tag == 35
                || tag == 36 || tag == 37;
            &&& known && (forall|j: int|
                i < j < dynamic_length(b, off, left) ==> #[trigger] quad(b, off + 16 * j) != tag) ==> under_tag(y, tag)
                == Some(quad(b, at + 8) as u64)
            &&& tag == 1 ==> y.needed.contains(quad(b, at + 8) as u64)
        }),
    decreases left,
{
    law_numbers(b, off);
    law_numbers(b, off + 8);
    let n = dynamic_length(b, off, left);
    let tag0 = le64(b, off);
    let x1 = dynamic_with(x, tag0, le64(b, off + 8));
    let y = dynamic_read(b, x, off, left)->Ok_0;
    lemma_dynamic_length(b, off + 16, left - 16);
    lemma_dynamic_kept(b, x1, off + 16, left - 16);
    if i == 0 {
        let tag = quad(b, off);
        if forall|j: int| 0 < j < n ==> #[trigger] quad(b, off + 16 * j) != tag {
            assert forall|j: int| 0 <= j < n - 1 implies #[trigger] quad(b, off + 16 + 16 * j) != tag by {
                assert(quad(b, off + 16 * (j + 1)) != tag);
            }
        }
        if tag == 1 {
            lemma_pushed(x.needed, le64(b, off + 8));
        }
    } else {
        law_dynamic(b, x1, off + 16, left - 16, i - 1);
        let tag = quad(b, off + 16 * i);
        if forall|j: int| i < j < n ==> #[trigger] quad(b, off + 16 * j) != tag {
            assert forall|j: int| i - 1 < j < n - 1 implies #[trigger] quad(b, off + 16 + 16 * j) != tag by {
                assert(quad(b, off + 16 * (j + 1)) != tag);
            }
        }
    }
}

proof fn lemma_dynamic_kept(b: Seq<u8>, x: DynamicV, off: int, left: int)
    requires
        dynamic_read(b, x, off, left) is Ok,
    ensures
        ({
            let y = dynamic_read(b, x, off, left)->Ok_0;
            &&& forall|v: u64| #[trigger] x.needed.contains(v) ==> y.needed.contains(v)
            &&& forall|tag: int|
                (forall|j: int| 0 <= j < dynamic_length(b, off, left) ==> #[trigger] quad(b, off + 16 * j) != tag)
                    ==> #[trigger] under_tag(y, tag) == under_tag(x, tag)
        }),
    decreases left,
{
    law_numbers(b, off);
    law_numbers(b, off + 8);
    let n = dynamic_length(b, off, left);
    let y = dynamic_read(b, x, off, left)->Ok_0;
    if !(left < 16 || quad(b, off) == 0) {
        let x1 = dynamic_with(x, le64(b, off), le64(b, off + 8));
        lemma_dynamic_length(b, off + 16, left - 16);
        lemma_dynamic_kept(b, x1, off + 16, left - 16);
        lemma_pushed(x.needed, le64(b, off + 8));
        assert forall|tag: int|
            (forall|j: int| 0 <= j < n ==> #[trigger] quad(b, off + 16 * j) != tag) implies #[trigger] under_tag(y, tag)
            == under_tag(x, tag) by {
            assert(quad(b, off + 16 * 0) != tag);
            assert forall|j: int| 0 <= j < n - 1 implies #[trigger] quad(b, off + 16 + 16 * j) != tag by {
                assert(quad(b, off + 16 * (j + 1)) != tag);
            }
            assert(under_tag(x1, tag) == under_tag(x, tag));
        }
    }
}

// ---- Packed relocations ----

/// Whether bit `k` of a number is set.
pub open spec fn nth_bit(w: int, k: int) -> bool
    decreases k,
{
    if k <= 0 {
        w % 2 == 1
    } else {
        nth_bit(w / 2, k - 1)
    }
}

/// The word that bit 1 of word `i` of a packed table stands for: the one
/// behind an address that the word before gives, or behind the 63 words that
/// the bits of the word before stand for.
pub open spec fn packed_from(b: Seq<u8>, base: int, i: int) -> int
    decreases i,
{
    if i <= 0 {
        0
    } else {
        let w = quad(b, base + 8 * (i - 1));
        if w % 2 == 0 {
            sum(w, 8)
        } else {
            sum(packed_from(b, base, i - 1), 504)
        }
    }
}

/// Whether word `i` of a packed table stands for the word at `site`: an even
/// one is an address, an odd one has a bit for each of the words that follow.
pub open spec fn packs(b: Seq<u8>, base: int, i: int, site: u64) -> bool {
    let w = quad(b, base + 8 * i);
    if w % 2 == 0 {
        site == w
    } else {
        exists|k: int| 1 <= k && #[trigger] nth_bit(w, k) && site == sum(packed_from(b, base, i), 8 * (k - 1))
    }
}

/// A relocation moves the word at `site` along with the file.
pub open spec fn moves(b: Seq<u8>, t: TablesV, site: u64, e: (u64, u64)) -> bool {
    &&& e.0 == sum(t.bias as int, site as int)
    &&& offset_of(t.loads, site) matches Some(o)
    &&& e.1 == sum(t.bias as int, quad(b, o))
}

proof fn lemma_site(b: Seq<u8>, t: TablesV, r: Seq<(u64, u64)>, site: u64, missing: &'static str)
    requires
        relr_site(b, t, r, site, missing) is Ok,
    ensures
        ({
            let x = relr_site(b, t, r, site, missing)->Ok_0;
            x == r.push(x[r.len() as int]) && moves(b, t, site, x[r.len() as int])
        }),
{
    let o = offset_of(t.loads, site)->0;
    law_numbers(b, o as int);
}

proof fn lemma_bits(b: Seq<u8>, t: TablesV, r: Seq<(u64, u64)>, site: u64, bits: u64)
    requires
        relr_bits(b, t, r, site, bits) is Ok,
    ensures
        ({
            let x = relr_bits(b, t, r, site, bits)->Ok_0;
            r.len() <= x.len() && r == x.take(r.len() as int)
        }),
    decreases bits,
{
    if bits != 0 {
        let next = site.wrapping_add(8);
        if bits % 2 == 1 {
            lemma_site(b, t, r, site, "loader: a DT_RELR bitmap entry doesn't fall inside any PT_LOAD segment");
            let more = relr_site(
                b,
                t,
                r,
                site,
                "loader: a DT_RELR bitmap entry doesn't fall inside any PT_LOAD segment",
            )->Ok_0;
            lemma_bits(b, t, more, next, bits / 2);
            let x = relr_bits(b, t, r, site, bits)->Ok_0;
            assert(x.take(r.len() as int) =~= x.take(more.len() as int).take(r.len() as int));
            assert(more.take(r.len() as int) =~= r);
        } else {
            lemma_bits(b, t, r, next, bits / 2);
        }
    } else {
        assert(r.take(r.len() as int) =~= r);
    }
}

proof fn lemma_bit_taken(b: Seq<u8>, t: TablesV, r: Seq<(u64, u64)>, site: u64, bits: u64, k: int)
    requires
        relr_bits(b, t, r, site, bits) is Ok,
        0 <= k,
        nth_bit(bits as int, k),
    ensures
        ({
            let x = relr_bits(b, t, r, site, bits)->Ok_0;
            exists|j: int| r.len() <= j < x.len() && moves(b, t, sum(site as int, 8 * k) as u64, #[trigger] x[j])
        }),
    decreases bits,
{
    let next = site.wrapping_add(8);
    assert(next == sum(site as int, 8));
    if bits == 0 {
        lemma_no_bit(k);
    } else if bits % 2 == 1 {
        let what = "loader: a DT_RELR bitmap entry doesn't fall inside any PT_LOAD segment";
        lemma_site(b, t, r, site, what);
        let more = relr_site(b, t, r, site, what)->Ok_0;
        let x = relr_bits(b, t, r, site, bits)->Ok_0;
        lemma_bits(b, t, more, next, bits / 2);
        if k == 0 {
            assert(sum(site as int, 0) == site);
            assert(x[r.len() as int] == x.take(more.len() as int)[r.len() as int]);
            assert(moves(b, t, site, x[r.len() as int]));
        } else {
            lemma_bit_taken(b, t, more, next, bits / 2, k - 1);
            assert(sum(next as int, 8 * (k - 1)) == sum(site as int, 8 * k));
        }
    } else {
        assert(k > 0);
        lemma_bit_taken(b, t, r, next, bits / 2, k - 1);
        assert(sum(next as int, 8 * (k - 1)) == sum(site as int, 8 * k));
    }
}

proof fn lemma_no_bit(k: int)
    requires
        0 <= k,
    ensures
        !nth_bit(0, k),
    decreases k,
{
    if k > 0 {
        lemma_no_bit(k - 1);
    }
}

proof fn lemma_taken_bit(b: Seq<u8>, t: TablesV, r: Seq<(u64, u64)>, site: u64, bits: u64, j: int) -> (k: int)
    requires
        relr_bits(b, t, r, site, bits) is Ok,
        r.len() <= j < relr_bits(b, t, r, site, bits)->Ok_0.len(),
    ensures
        0 <= k,
        nth_bit(bits as int, k),
        moves(b, t, sum(site as int, 8 * k) as u64, relr_bits(b, t, r, site, bits)->Ok_0[j]),
    decreases bits,
{
    let next = site.wrapping_add(8);
    assert(next == sum(site as int, 8));
    if bits % 2 == 1 {
        let what = "loader: a DT_RELR bitmap entry doesn't fall inside any PT_LOAD segment";
        lemma_site(b, t, r, site, what);
        let more = relr_site(b, t, r, site, what)->Ok_0;
        let x = relr_bits(b, t, r, site, bits)->Ok_0;
        lemma_bits(b, t, more, next, bits / 2);
        if j == r.len() {
            assert(sum(site as int, 0) == site);
            assert(x[j] == x.take(more.len() as int)[j]);
            0
        } else {
            let k = lemma_taken_bit(b, t, more, next, bits / 2, j);
            assert(sum(next as int, 8 * k) == sum(site as int, 8 * (k + 1)));
            assert(nth_bit(bits as int, k + 1));
            k + 1
        }
    } else {
        let k = lemma_taken_bit(b, t, r, next, bits / 2, j);
        assert(sum(next as int, 8 * k) == sum(site as int, 8 * (k + 1)));
        assert(nth_bit(bits as int, k + 1));
        k + 1
    }
}

/// Every word that a packed table stands for is moved along with the file,
/// and no other is.
#[verifier::spinoff_prover]
#[verifier::rlimit(40)]
pub proof fn law_packed_table(b: Seq<u8>, t: TablesV, r: Seq<(u64, u64)>, base: int, n: int, i: int, site: u64, j: int)
    requires
        0 <= i < n,
        relr_reads(b, t, r, base, n) is Ok,
    ensures
        ({
            let x = (relr_reads(b, t, r, base, n)->Ok_0).0;
            &&& r.len() <= x.len()
            &&& r == x.take(r.len() as int)
            &&& packs(b, base, i, site) ==> exists|m: int|
                r.len() <= m < x.len() && moves(b, t, site, #[trigger] x[m])
            &&& r.len() <= j < x.len() ==> exists|m: int, s: u64|
                0 <= m < n && #[trigger] packs(b, base, m, s) && moves(b, t, s, x[j])
        }),
        (relr_reads(b, t, r, base, n)->Ok_0).1 == packed_from(b, base, n),
    decreases n,
{
    let (x0, addr) = relr_reads(b, t, r, base, n - 1)->Ok_0;
    let x = (relr_reads(b, t, r, base, n)->Ok_0).0;
    let w = quad(b, base + 8 * (n - 1));
    law_numbers(b, base + 8 * (n - 1));
    if n > 1 {
        law_packed_table(
            b,
            t,
            r,
            base,
            n - 1,
            if i < n - 1 {
                i
            } else {
                0
            },
            site,
            j,
        );
    }
    assert(r == x0.take(r.len() as int)) by {
        if n == 1 {
            assert(r.take(r.len() as int) =~= r);
        }
    }
    assert(addr == packed_from(b, base, n - 1));
    lemma_step(b, t, r, base, n);
    assert(x.take(r.len() as int) =~= x.take(x0.len() as int).take(r.len() as int));
    if packs(b, base, i, site) {
        if i < n - 1 {
            let m = choose|m: int| r.len() <= m < x0.len() && moves(b, t, site, #[trigger] x0[m]);
            assert(x[m] == x.take(x0.len() as int)[m]);
        } else if w % 2 == 0 {
            assert(moves(b, t, site, x[x0.len() as int]));
        } else {
            let k = choose|k: int|
                1 <= k && #[trigger] nth_bit(w, k) && site == sum(packed_from(b, base, i), 8 * (k - 1));
            assert(nth_bit(w / 2, k - 1));
            lemma_bit_taken(b, t, x0, addr, (w / 2) as u64, k - 1);
        }
    }
    if r.len() <= j < x.len() {
        if j < x0.len() {
            assert(x[j] == x.take(x0.len() as int)[j]);
        } else if w % 2 == 0 {
            assert(packs(b, base, n - 1, w as u64));
        } else {
            let k = lemma_taken_bit(b, t, x0, addr, (w / 2) as u64, j);
            assert(nth_bit(w, k + 1));
            let s = sum(addr as int, 8 * k) as u64;
            assert(packs(b, base, n - 1, s));
        }
    }
}

proof fn lemma_step_taken(b: Seq<u8>, t: TablesV, r: Seq<(u64, u64)>, base: int, n: int)
    requires
        0 < n,
        relr_reads(b, t, r, base, n) is Ok,
    ensures
        ({
            let (x0, addr) = relr_reads(b, t, r, base, n - 1)->Ok_0;
            let (x, end) = relr_reads(b, t, r, base, n)->Ok_0;
            let w = le64(b, base + 8 * (n - 1));
            &&& relr_reads(b, t, r, base, n - 1) is Ok
            &&& if w % 2 == 0 {
                &&& relr_site(
                    b,
                    t,
                    x0,
                    w,
                    "loader: a DT_RELR address entry doesn't fall inside any PT_LOAD segment",
                ) == Ok::<Seq<(u64, u64)>, &'static str>(x)
                &&& end == w.wrapping_add(8)
            } else {
                &&& relr_bits(b, t, x0, addr, w / 2) == Ok::<Seq<(u64, u64)>, &'static str>(x)
                &&& end == addr.wrapping_add(504)
            }
        }),
{
}

#[verifier::spinoff_prover]
#[verifier::rlimit(60)]
proof fn lemma_step(b: Seq<u8>, t: TablesV, r: Seq<(u64, u64)>, base: int, n: int)
    requires
        0 < n,
        relr_reads(b, t, r, base, n) is Ok,
    ensures
        ({
            let (x0, addr) = relr_reads(b, t, r, base, n - 1)->Ok_0;
            let (x, end) = relr_reads(b, t, r, base, n)->Ok_0;
            let w = quad(b, base + 8 * (n - 1));
            &&& relr_reads(b, t, r, base, n - 1) is Ok
            &&& x0.len() <= x.len()
            &&& x0 == x.take(x0.len() as int)
            &&& 0 <= w < 0x1_0000_0000_0000_0000
            &&& if w % 2 == 0 {
                &&& x.len() == x0.len() + 1
                &&& moves(b, t, w as u64, x[x0.len() as int])
                &&& end == sum(w, 8)
            } else {
                &&& relr_bits(b, t, x0, addr, (w / 2) as u64) == Ok::<Seq<(u64, u64)>, &'static str>(x)
                &&& end == sum(addr as int, 504)
            }
        }),
{
    lemma_step_taken(b, t, r, base, n);
    let (x0, addr) = relr_reads(b, t, r, base, n - 1)->Ok_0;
    let (x, end) = relr_reads(b, t, r, base, n)->Ok_0;
    let w = le64(b, base + 8 * (n - 1));
    assert(w == quad(b, base + 8 * (n - 1))) by {
        law_numbers(b, base + 8 * (n - 1));
    }
    if w % 2 == 0 {
        lemma_sum(w, 8);
        lemma_site(b, t, x0, w, "loader: a DT_RELR address entry doesn't fall inside any PT_LOAD segment");
        assert(x.take(x0.len() as int) =~= x0);
    } else {
        lemma_sum(addr, 504);
        lemma_bits(b, t, x0, addr, w / 2);
    }
}

} // verus!
