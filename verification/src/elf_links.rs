//! Where an ELF file has its tables, and that everything in them is taken:
//! relocations, references to symbols, and symbols.
use crate::elf::{
    exported_symbols, general_relocations, headers_read, headers_vaddr, linkage_relocations, links_read, no_links,
    offset_of, packed_relocations, plt_reads, rela_reads, symtab_place, DynamicV, LinkV, Load, TablesV,
};
use crate::elf_format::{
    asks_more, entry_done, is_exported, law_exports, law_linkage_table, law_numbers, law_packed_table,
    law_relocation_table, lemma_asks_more, lemma_nul, lemma_plt, moves, packs, quad, sum, text_from, word,
};
use vstd::prelude::*;

verus! {

/// Whether a part of the file is loaded to an address.
pub open spec fn comes_to(load: Load, v: u64) -> bool {
    load.0 <= v < load.0 + load.2
}

/// The place in the file of what is loaded to an address is that in the first
/// part that is loaded there; without such a part there is none.
pub proof fn law_place_in_file(loads: Seq<Load>, v: u64)
    ensures
        match offset_of(loads, v) {
            None => forall|k: int| 0 <= k < loads.len() ==> !comes_to(#[trigger] loads[k], v),
            Some(o) => exists|k: int|
                0 <= k < loads.len() && comes_to(#[trigger] loads[k], v) && o - loads[k].1 == v - loads[k].0 && (forall|
                    j: int,
                |
                    0 <= j < k ==> !comes_to(#[trigger] loads[j], v)),
        },
    decreases loads.len(),
{
    if loads.len() > 0 {
        let rest = loads.drop_first();
        if !comes_to(loads[0], v) {
            law_place_in_file(rest, v);
            assert forall|j: int| 0 < j < loads.len() implies #[trigger] loads[j] == rest[j - 1] by {}
            if let Some(o) = offset_of(rest, v) {
                let k = choose|k: int|
                    0 <= k < rest.len() && comes_to(#[trigger] rest[k], v) && o - rest[k].1 == v - rest[k].0 && (forall|
                        j: int,
                    |
                        0 <= j < k ==> !comes_to(#[trigger] rest[j], v));
                assert(loads[k + 1] == rest[k]);
            }
        }
    }
}

proof fn lemma_place(loads: Seq<Load>, v: u64)
    ensures
        offset_of(loads, v) matches Some(o) ==> 0 <= o,
    decreases loads.len(),
{
    if loads.len() > 0 {
        lemma_place(loads.drop_first(), v);
    }
}

proof fn lemma_more_plt(b: Seq<u8>, bias: u64, symtab: int, strtab: int, x: LinkV, base: int, n: int)
    requires
        0 <= base,
        0 <= symtab,
        0 <= strtab,
        plt_reads(b, bias, symtab, strtab, x, base, n) is Ok,
    ensures
        asks_more(x, plt_reads(b, bias, symtab, strtab, x, base, n)->Ok_0),
    decreases n,
{
    if n > 0 {
        lemma_more_plt(b, bias, symtab, strtab, x, base, n - 1);
        lemma_plt(
            b,
            bias,
            symtab,
            strtab,
            plt_reads(b, bias, symtab, strtab, x, base, n - 1)->Ok_0,
            base + 24 * (n - 1),
        );
    }
}

/// The tables of a file, by what its dynamic entries say.
pub open spec fn tables_of(loads: Seq<Load>, dynamic: DynamicV, bias: u64) -> TablesV {
    TablesV {
        loads,
        symtab: dynamic.symtab,
        strtab: match dynamic.strtab {
            None => None,
            Some(v) => offset_of(loads, v),
        },
        bias,
    }
}

proof fn lemma_stages(b: Seq<u8>, loads: Seq<Load>, dynamic: DynamicV, bias: u64) -> (y: (LinkV, LinkV, LinkV, LinkV))
    requires
        links_read(b, loads, dynamic, bias) is Ok,
    ensures
        ({
            let t = tables_of(loads, dynamic, bias);
            let x = links_read(b, loads, dynamic, bias)->Ok_0;
            &&& general_relocations(b, t, dynamic, y.0) == Ok::<LinkV, &'static str>(y.1)
            &&& packed_relocations(b, t, dynamic, y.1) == Ok::<LinkV, &'static str>(y.2)
            &&& linkage_relocations(b, t, dynamic, y.2) == Ok::<LinkV, &'static str>(y.3)
            &&& exported_symbols(b, t, dynamic, y.3) == Ok::<LinkV, &'static str>(x)
            &&& symtab_place(t) matches Some(o) ==> 0 <= o
            &&& t.strtab matches Some(o) ==> 0 <= o
        }),
{
    let t = tables_of(loads, dynamic, bias);
    let needed = crate::elf::needed_names(b, t.strtab, dynamic.needed, dynamic.needed.len() as int)->Ok_0;
    let y0 = LinkV { needed, ..no_links() };
    let y1 = general_relocations(b, t, dynamic, y0)->Ok_0;
    let y2 = packed_relocations(b, t, dynamic, y1)->Ok_0;
    let y3 = linkage_relocations(b, t, dynamic, y2)->Ok_0;
    if let Some(v) = dynamic.symtab {
        lemma_place(loads, v);
    }
    if let Some(v) = dynamic.strtab {
        lemma_place(loads, v);
    }
    (y0, y1, y2, y3)
}

proof fn lemma_packed_more(b: Seq<u8>, t: TablesV, dynamic: DynamicV, x: LinkV)
    requires
        packed_relocations(b, t, dynamic, x) is Ok,
    ensures
        asks_more(x, packed_relocations(b, t, dynamic, x)->Ok_0),
{
    let y = packed_relocations(b, t, dynamic, x)->Ok_0;
    if let (Some(vaddr), Some(size)) = (dynamic.relr, dynamic.relr_size) {
        let base = offset_of(t.loads, vaddr)->0;
        if size / 8 > 0 {
            law_packed_table(b, t, x.relocations, base, size as int / 8, 0, 0, 0);
            assert forall|p: (u64, u64)| #[trigger] x.relocations.contains(p) implies y.relocations.contains(p) by {
                let i = choose|i: int| 0 <= i < x.relocations.len() && x.relocations[i] == p;
                assert(y.relocations[i] == y.relocations.take(x.relocations.len() as int)[i]);
            }
        }
    }
}

proof fn lemma_linkage_more(b: Seq<u8>, t: TablesV, dynamic: DynamicV, x: LinkV)
    requires
        linkage_relocations(b, t, dynamic, x) is Ok,
        symtab_place(t) matches Some(o) ==> 0 <= o,
        t.strtab matches Some(o) ==> 0 <= o,
    ensures
        asks_more(x, linkage_relocations(b, t, dynamic, x)->Ok_0),
{
    if let (Some(vaddr), Some(size)) = (dynamic.jmprel, dynamic.pltrel_size) {
        lemma_place(t.loads, vaddr);
        lemma_more_plt(
            b,
            t.bias,
            symtab_place(t)->0,
            t.strtab->0,
            x,
            offset_of(t.loads, vaddr)->0,
            size as int / 24,
        );
    }
}

/// Every entry of 24 bytes of the relocation table is taken as what it is.
pub proof fn law_relocations_are_taken(b: Seq<u8>, loads: Seq<Load>, dynamic: DynamicV, bias: u64, i: int)
    requires
        links_read(b, loads, dynamic, bias) is Ok,
        dynamic.rela is Some,
        dynamic.rela_size is Some,
        0 <= 24 * i,
        24 * i + 24 <= dynamic.rela_size->0,
    ensures
        ({
            let t = tables_of(loads, dynamic, bias);
            &&& offset_of(loads, dynamic.rela->0) matches Some(o)
            &&& entry_done(
                b,
                o + 24 * i,
                bias as int,
                symtab_place(t),
                t.strtab,
                links_read(b, loads, dynamic, bias)->Ok_0,
            )
        }),
{
    let t = tables_of(loads, dynamic, bias);
    let (y0, y1, y2, y3) = lemma_stages(b, loads, dynamic, bias);
    let x = links_read(b, loads, dynamic, bias)->Ok_0;
    lemma_place(loads, dynamic.rela->0);
    let o = offset_of(loads, dynamic.rela->0)->0;
    let n = dynamic.rela_size->0 as int / 24;
    assert(rela_reads(b, t, y0, o, n) == Ok::<LinkV, &'static str>(y1));
    law_relocation_table(b, t, y0, o, n, i);
    lemma_packed_more(b, t, dynamic, y1);
    lemma_linkage_more(b, t, dynamic, y2);
    lemma_asks_more(b, o + 24 * i, bias as int, symtab_place(t), t.strtab, y1, y2);
    lemma_asks_more(b, o + 24 * i, bias as int, symtab_place(t), t.strtab, y2, y3);
    lemma_asks_more(b, o + 24 * i, bias as int, symtab_place(t), t.strtab, y3, x);
}

/// Every entry of 24 bytes of the table for calls into libraries is taken as
/// the reference to a symbol that it is.
pub proof fn law_calls_are_taken(b: Seq<u8>, loads: Seq<Load>, dynamic: DynamicV, bias: u64, i: int)
    requires
        links_read(b, loads, dynamic, bias) is Ok,
        dynamic.jmprel is Some,
        dynamic.pltrel_size is Some,
        0 <= 24 * i,
        24 * i + 24 <= dynamic.pltrel_size->0,
    ensures
        ({
            let t = tables_of(loads, dynamic, bias);
            &&& offset_of(loads, dynamic.jmprel->0) matches Some(o)
            &&& word(b, o + 24 * i + 8) == 7
            &&& entry_done(
                b,
                o + 24 * i,
                bias as int,
                symtab_place(t),
                t.strtab,
                links_read(b, loads, dynamic, bias)->Ok_0,
            )
        }),
{
    let t = tables_of(loads, dynamic, bias);
    let (y0, y1, y2, y3) = lemma_stages(b, loads, dynamic, bias);
    let x = links_read(b, loads, dynamic, bias)->Ok_0;
    lemma_place(loads, dynamic.jmprel->0);
    let o = offset_of(loads, dynamic.jmprel->0)->0;
    let n = dynamic.pltrel_size->0 as int / 24;
    law_linkage_table(b, bias, symtab_place(t)->0, t.strtab->0, y2, o, n, i);
    lemma_asks_more(b, o + 24 * i, bias as int, symtab_place(t), t.strtab, y3, x);
}

/// Every word that the packed table stands for is moved along with the file.
pub proof fn law_packed_words_are_taken(
    b: Seq<u8>,
    loads: Seq<Load>,
    dynamic: DynamicV,
    bias: u64,
    i: int,
    site: u64,
)
    requires
        links_read(b, loads, dynamic, bias) is Ok,
        dynamic.relr is Some,
        dynamic.relr_size is Some,
        0 <= 8 * i,
        8 * i + 8 <= dynamic.relr_size->0,
        offset_of(loads, dynamic.relr->0) matches Some(o) ==> packs(b, o, i, site),
    ensures
        offset_of(loads, dynamic.relr->0) is Some,
        exists|e: (u64, u64)|
            links_read(b, loads, dynamic, bias)->Ok_0.relocations.contains(e) && #[trigger] moves(
                b,
                tables_of(loads, dynamic, bias),
                site,
                e,
            ),
{
    let t = tables_of(loads, dynamic, bias);
    let (y0, y1, y2, y3) = lemma_stages(b, loads, dynamic, bias);
    let x = links_read(b, loads, dynamic, bias)->Ok_0;
    let o = offset_of(loads, dynamic.relr->0)->0;
    let n = dynamic.relr_size->0 as int / 8;
    law_packed_table(b, t, y1.relocations, o, n, i, site, 0);
    let m = choose|m: int|
        y1.relocations.len() <= m < y2.relocations.len() && moves(b, t, site, #[trigger] y2.relocations[m]);
    let e = y2.relocations[m];
    assert(y2.relocations.contains(e));
    lemma_linkage_more(b, t, dynamic, y2);
    assert(y3.relocations.contains(e));
    assert(x.relocations.contains(e));
}

proof fn lemma_exported(b: Seq<u8>, t: TablesV, dynamic: DynamicV, x: LinkV, s: int, h: int)
    requires
        exported_symbols(b, t, dynamic, x) is Ok,
        dynamic.symtab is Some,
        dynamic.hash is Some,
        t.strtab is Some,
        offset_of(t.loads, dynamic.symtab->0) == Some(s),
        offset_of(t.loads, dynamic.hash->0) == Some(h),
    ensures
        crate::elf::export_reads(b, t.bias, s, t.strtab->0, x.exports, word(b, h + 4)) == Ok::<
            Seq<(Seq<u8>, u64)>,
            &'static str,
        >(exported_symbols(b, t, dynamic, x)->Ok_0.exports),
{
    law_numbers(b, h + 4);
}

proof fn lemma_tables_found(b: Seq<u8>, t: TablesV, dynamic: DynamicV, x: LinkV)
    requires
        exported_symbols(b, t, dynamic, x) is Ok,
        dynamic.symtab is Some,
        dynamic.hash is Some,
        t.strtab is Some,
    ensures
        offset_of(t.loads, dynamic.symtab->0) is Some,
        offset_of(t.loads, dynamic.hash->0) is Some,
{
}

/// Every symbol that others can refer to is exported, of as many as the
/// second word of the hash table says there are.
#[verifier::spinoff_prover]
#[verifier::rlimit(60)]
pub proof fn law_symbols_are_exported(b: Seq<u8>, loads: Seq<Load>, dynamic: DynamicV, bias: u64, i: int)
    requires
        links_read(b, loads, dynamic, bias) is Ok,
        dynamic.symtab is Some,
        dynamic.hash is Some,
        dynamic.strtab is Some,
        offset_of(loads, dynamic.hash->0) matches Some(h) ==> 0 <= i < word(b, h + 4),
        offset_of(loads, dynamic.symtab->0) matches Some(s) ==> is_exported(b, s, i),
    ensures
        ({
            let t = tables_of(loads, dynamic, bias);
            let y = links_read(b, loads, dynamic, bias)->Ok_0.exports;
            &&& offset_of(loads, dynamic.symtab->0) matches Some(s)
            &&& exists|k: int|
                0 <= k < y.len() && (#[trigger] y[k]).1 == sum(bias as int, quad(b, s + 24 * i + 8)) && text_from(
                    b,
                    t.strtab->0 + word(b, s + 24 * i),
                    y[k].0,
                )
        }),
{
    let t = tables_of(loads, dynamic, bias);
    let (y0, y1, y2, y3) = lemma_stages(b, loads, dynamic, bias);
    lemma_place(loads, dynamic.symtab->0);
    lemma_tables_found(b, t, dynamic, y3);
    let s = offset_of(loads, dynamic.symtab->0)->0;
    let h = offset_of(loads, dynamic.hash->0)->0;
    lemma_exported(b, t, dynamic, y3, s, h);
    law_exports(b, bias, s, t.strtab->0, y3.exports, word(b, h + 4), i);
}

/// Whether a text is what a part of a file holds, up to the first zero in it.
pub open spec fn text_in(b: Seq<u8>, at: int, len: int, text: Seq<u8>) -> bool {
    &&& text.len() <= len
    &&& at + len <= b.len()
    &&& forall|i: int| 0 <= i < text.len() ==> #[trigger] text[i] == b[at + i] && text[i] != 0
    &&& text.len() < len ==> b[at + text.len()] == 0
}

/// Of the program headers that name the program's linker (3), the last one
/// counts, and so it does of those that say where the dynamic entries are
/// (2): where is at byte 8 of the header, and how many bytes at 32.
#[verifier::spinoff_prover]
#[verifier::rlimit(40)]
pub proof fn law_last_headers(b: Seq<u8>, off: int, size: int, n: int, bias: u64, i: int)
    requires
        headers_read(b, off, size, n, bias) is Ok,
        0 <= i < n,
        word(b, off + i * size) == 2 || word(b, off + i * size) == 3,
        forall|j: int| i < j < n ==> #[trigger] word(b, off + j * size) != word(b, off + i * size),
    ensures
        ({
            let x = headers_read(b, off, size, n, bias)->Ok_0;
            let ph = off + i * size;
            &&& word(b, ph) == 3 ==> (x.interp matches Some(text) && text_in(b, quad(b, ph + 8), quad(b, ph + 32), text))
            &&& word(b, ph) == 2 ==> (x.dynamic matches Some((start, len)) && start == quad(b, ph + 8) && len == quad(
                b,
                ph + 32,
            ))
        }),
    decreases n,
{
    let last = off + (n - 1) * size;
    law_numbers(b, last);
    if i < n - 1 {
        law_last_headers(b, off, size, n - 1, bias, i);
        assert(word(b, off + (n - 1) * size) != word(b, off + i * size));
    } else {
        law_numbers(b, last + 8);
        law_numbers(b, last + 32);
        if word(b, last) == 3 {
            let at = quad(b, last + 8);
            let len = quad(b, last + 32);
            let raw = b.subrange(at, at + len);
            lemma_nul(raw);
            let text = (headers_read(b, off, size, n, bias)->Ok_0).interp->0;
            assert forall|k: int| 0 <= k < text.len() implies #[trigger] text[k] == b[at + k] && text[k] != 0 by {
                assert(text[k] == raw[k]);
            }
            if text.len() < len {
                assert(raw[text.len() as int] == b[at + text.len()]);
            }
        }
    }
}

/// A program finds its program headers where the part of the file from its
/// first byte on was loaded, as far behind that as byte 32 says.
pub proof fn law_headers_in_memory(loads: Seq<Load>, bias: u64, off: u64, k: int)
    requires
        0 <= k < loads.len(),
        loads[k].1 == 0,
        forall|j: int| 0 <= j < k ==> (#[trigger] loads[j]).1 != 0,
    ensures
        headers_vaddr(loads, bias, off) == (loads[k].0 + bias + off) % 0x1_0000_0000_0000_0000,
    decreases k,
{
    if k > 0 {
        let rest = loads.drop_first();
        assert forall|j: int| 0 <= j < k - 1 implies (#[trigger] rest[j]).1 != 0 by {
            assert(rest[j] == loads[j + 1]);
        }
        assert(loads[0].1 != 0);
        law_headers_in_memory(rest, bias, off, k - 1);
    }
}

} // verus!
