//! The processor's own view of page tables, and what it makes of the entries
//! that the kernel writes: which pages a program may read, write and run.
use crate::paging::{
    entry, leaf, leaf_of, lemma_aligned, lemma_entries, lemma_leaf_write, lemma_target_aligned, law_try_map, link,
    present, reflagged_pages, table_at, tables_ok, target, Mem, ADDR_MASK,
};
use crate::space::{lemma_filled, lemma_same_leaf, space_ok};
use crate::task::FileBacking;
use crate::vaddr::{index, lemma_index, lemma_same_page, same_page};
use crate::vm::{
    faulted, lemma_region_from, mapping_at, page_contents, page_flags, protecting, range_end, region_from, table_ok,
    Table, USER_END,
};
use crate::vm_laws::{law_page_freed, law_pages_freed};
use crate::volume::{image_ok, Image, Layout};
use vstd::prelude::*;

verus! {

broadcast use lemma_index;

// ---- Walking the tables ----

/// The word of memory that holds entry `i` of the table at `base`.
pub open spec fn word_at(ram: Seq<u64>, base: u64, i: int) -> u64 {
    ram[(base / 8) as int + i]
}

/// The table that the processor goes on to from the entry `e`, unless it is
/// not present or maps a large page.
pub open spec fn next_table(e: u64) -> Option<u64> {
    if e & 1 == 0 || e & 0x80 != 0 {
        None
    } else {
        Some(e & 0x000F_FFFF_FFFF_F000)
    }
}

/// The entry of a page that the processor finds for an address: nine bits of
/// it at a time select an entry, from bit 39, 30, 21 and 12 on.
pub open spec fn page_entry(ram: Seq<u64>, root: u64, virt: u64) -> Option<u64> {
    match next_table(word_at(ram, root, virt as int / 0x80_0000_0000 % 512)) {
        None => None,
        Some(second) => match next_table(word_at(ram, second, virt as int / 0x4000_0000 % 512)) {
            None => None,
            Some(third) => match next_table(word_at(ram, third, virt as int / 0x20_0000 % 512)) {
                None => None,
                Some(last) => {
                    let e = word_at(ram, last, virt as int / 0x1000 % 512);
                    if e & 1 == 0 {
                        None
                    } else {
                        Some(e)
                    }
                },
            },
        },
    }
}

/// The address in memory that the processor makes of a virtual one.
pub open spec fn address_of(ram: Seq<u64>, root: u64, virt: u64) -> Option<int> {
    match page_entry(ram, root, virt) {
        None => None,
        Some(e) => Some((e & 0x000F_FFFF_FFFF_F000) + virt % 4096),
    }
}

/// The entries that the kernel looks up are those that the processor finds.
pub proof fn law_walks_agree(ram: Seq<u64>, root: u64, virt: u64)
    ensures
        leaf_of(ram, root, virt) == page_entry(ram, root, virt),
        crate::paging::translation(ram, root, virt) == match page_entry(ram, root, virt) {
            Some(e) => Some(e & 0x000F_FFFF_FFFF_F000),
            None => None,
        },
{
    reveal(index);
    reveal_with_fuel(table_at, 4);
}

// ---- What an entry allows ----

/// Whether a program may use the page with the entry `e` at all.
pub open spec fn for_programs(e: u64) -> bool {
    e & 1 != 0 && e & 4 != 0
}

pub open spec fn may_write(e: u64) -> bool {
    e & 2 != 0
}

pub open spec fn may_run(e: u64) -> bool {
    e & 0x8000_0000_0000_0000 == 0
}

/// The entry that maps a frame allows what the flags say, and nothing else.
pub proof fn law_page_entry(phys: u64, flags: u64)
    by (bit_vector)
    requires
        phys & !0x000F_FFFF_FFFF_F000u64 == 0,
        flags & 0x000F_FFFF_FFFF_F000u64 == 0,
    ensures
        leaf(phys, flags) & 1 != 0,
        (leaf(phys, flags) & 2 != 0) == (flags & 2 != 0),
        (leaf(phys, flags) & 4 != 0) == (flags & 4 != 0),
        (leaf(phys, flags) & 0x8000_0000_0000_0000 != 0) == (flags & 0x8000_0000_0000_0000 != 0),
        leaf(phys, flags) & 0x000F_FFFF_FFFF_F000 == phys,
{
}

/// The entry that links a table shuts out no access that the entry of a page
/// further on may allow.
pub proof fn law_link_entry(phys: u64)
    by (bit_vector)
    requires
        phys & !0x000F_FFFF_FFFF_F000u64 == 0,
    ensures
        link(phys) & 1 != 0,
        link(phys) & 2 != 0,
        link(phys) & 4 != 0,
        link(phys) & 0x80 == 0,
        link(phys) & 0x8000_0000_0000_0000 == 0,
        link(phys) & 0x000F_FFFF_FFFF_F000 == phys,
{
}

/// The flags for a protection: read, write and execute are its bits 0, 1
/// and 2.
pub proof fn law_page_flags(prot: u64, nx: bool)
    by (bit_vector)
    ensures
        page_flags(prot, nx) & 0x000F_FFFF_FFFF_F000 == 0,
        page_flags(prot, nx) & 1 == 0,
        (page_flags(prot, nx) & 4 != 0) == (prot != 0),
        (page_flags(prot, nx) & 2 != 0) == (prot & 2 != 0),
        (page_flags(prot, nx) & 0x8000_0000_0000_0000 != 0) == (prot & 4 == 0 && nx),
{
}

/// Whether a page's entry allows exactly what a protection does: to use it at
/// all with any right, to write with the right to write (2), to run with the
/// right to execute (4) or where the processor cannot forbid it.
pub open spec fn entry_matches(e: u64, prot: u64, nx: bool) -> bool {
    &&& e & 1 != 0
    &&& for_programs(e) == (prot != 0)
    &&& may_write(e) == (prot & 2 != 0)
    &&& may_run(e) == (prot & 4 != 0 || !nx)
}

/// The right that an access with the error code `error` takes: bit 1 is a
/// write, bit 4 an instruction fetch.
pub open spec fn allows(e: u64, error: u64) -> bool {
    for_programs(e) && (error & 2 != 0 ==> may_write(e)) && (error & 16 != 0 ==> may_run(e))
}

pub open spec fn permits(prot: u64, error: u64) -> bool {
    prot != 0 && (error & 2 != 0 ==> prot & 2 != 0) && (error & 16 != 0 ==> prot & 4 != 0)
}

// ---- Faults ----

/// A fault that is handled gives the page an entry that matches the
/// protection it is mapped with and allows the access that faulted. One where
/// nothing is mapped, or where what is mapped does not permit the access, is
/// not handled and changes nothing.
#[verifier::spinoff_prover]
#[verifier::rlimit(40)]
pub proof fn law_handled_faults_may_be_retried(
    t: Table,
    s: Mem,
    d: Image,
    layout: Option<Layout>,
    cr3: u64,
    nx: bool,
    addr: u64,
    error: u64,
)
    requires
        s.wf(),
        space_ok(s, cr3),
        image_ok(d),
        table_ok(t),
    ensures
        ({
            let (t1, s1, ok) = faulted(t, s, d, layout, cr3, nx, addr, error);
            let page = (addr - addr % 4096) as u64;
            match mapping_at(t, cr3, page) {
                None => !ok && t1 == t && s1 == s,
                Some((prot, _, _, _)) => {
                    &&& !permits(prot, error) ==> !ok && t1 == t && s1 == s
                    &&& ok ==> {
                        &&& page_entry(s.ram, cr3, page) is None
                        &&& page_entry(s1.ram, cr3, page) is Some
                        &&& entry_matches(page_entry(s1.ram, cr3, page)->0, prot, nx)
                        &&& allows(page_entry(s1.ram, cr3, page)->0, error)
                    }
                },
            }
        }),
{
    let page = (addr - addr % 4096) as u64;
    let (t1, s1, ok) = faulted(t, s, d, layout, cr3, nx, addr, error);
    law_walks_agree(s.ram, cr3, page);
    law_walks_agree(s1.ram, cr3, page);
    if ok {
        lemma_region_from(t, cr3, page, 0);
        let i = region_from(t, cr3, page, 0)->0;
        let r = t[i]->0;
        let file_offset = r.offset + (page - r.start);
        let p = s.frames.take().1->0;
        let frames = s.frames.take().0;
        let bytes = page_contents(r.backing, d, layout, file_offset).1->Ok_0;
        assert(bytes.len() == 4096) by {
            if let Some(b) = r.backing {
                crate::task::lemma_backing_len(b, d, layout, file_offset, Seq::new(4096, |i: int| 0u8));
            }
        }
        crate::paging::lemma_taken(s);
        lemma_filled(s, cr3, bytes);
        let filled = Mem { ram: crate::ram::with_bytes(s.ram, p as int, bytes), frames };
        let flags = page_flags(r.prot, nx);
        law_page_flags(r.prot, nx);
        assert(tables_ok(filled.ram, cr3) && crate::paging::tables_used(filled, cr3)) by {
            reveal(space_ok);
        }
        law_try_map(filled, cr3, page, p, flags);
        lemma_aligned(p);
        law_page_entry(p, flags);
        assert(leaf_of(filled.ram, cr3, page) == leaf_of(s.ram, cr3, page));
    }
}

// ---- Protecting ----

/// Whether `v` is the start of a page that `len` bytes from `addr` on touch,
/// where `addr` is the start of one.
pub open spec fn page_in(addr: u64, len: u64, v: u64) -> bool {
    v % 4096 == 0 && addr <= v < addr + len
}

proof fn lemma_reflagged_entries(s: Mem, cr3: u64, addr: int, n: nat, flags: u64, v: u64)
    requires
        tables_ok(s.ram, cr3),
        flags & ADDR_MASK == 0,
        v % 4096 == 0,
        addr % 4096 == 0,
        0 <= addr,
        addr + 4096 * n <= USER_END,
        v < USER_END,
    ensures
        ({
            let after = reflagged_pages(s.ram, cr3, addr, n, flags);
            &&& tables_ok(after, cr3)
            &&& leaf_of(after, cr3, v) == match leaf_of(s.ram, cr3, v) {
                Some(e) if addr <= v < addr + 4096 * n => Some(leaf(target(e), flags)),
                other => other,
            }
        }),
    decreases n,
{
    if n > 0 {
        let m = (n - 1) as nat;
        lemma_reflagged_entries(s, cr3, addr, m, flags, v);
        let before = reflagged_pages(s.ram, cr3, addr, m, flags);
        let w = (addr + 4096 * m) as u64;
        if let Some(e) = leaf_of(before, cr3, w) {
            lemma_target_aligned(e);
            lemma_aligned(target(e));
            lemma_entries(target(e), flags, 0);
            lemma_leaf_write(before, cr3, w, leaf(target(e), flags));
        }
        if same_page(w, v) {
            lemma_same_page(w, v);
        }
    }
}

/// After memory has been given another protection, every page in it that is
/// present keeps its frame and has an entry that matches the protection, and
/// every other page has the entry that it had.
#[verifier::spinoff_prover]
#[verifier::rlimit(40)]
pub proof fn law_protected_pages(t: Table, s: Mem, cr3: u64, nx: bool, addr: u64, len: u64, prot: u64, v: u64)
    requires
        s.wf(),
        space_ok(s, cr3),
        len > 0,
        protecting(t, s, cr3, nx, addr, len, prot).2 is Ok,
        v % 4096 == 0,
        v < 0x8000_0000_0000,
    ensures
        ({
            let after = protecting(t, s, cr3, nx, addr, len, prot).1;
            match page_entry(s.ram, cr3, v) {
                Some(e) if page_in(addr, len, v) => {
                    &&& page_entry(after.ram, cr3, v) is Some
                    &&& entry_matches(page_entry(after.ram, cr3, v)->0, prot, nx)
                    &&& address_of(after.ram, cr3, v) == address_of(s.ram, cr3, v)
                },
                other => page_entry(after.ram, cr3, v) == other,
            }
        }),
{
    let after = protecting(t, s, cr3, nx, addr, len, prot).1;
    law_walks_agree(s.ram, cr3, v);
    law_walks_agree(after.ram, cr3, v);
    law_page_flags(prot, nx);
    let end = range_end(addr, len)->Ok_0;
    let n = ((end - addr) / 4096) as nat;
    assert(tables_ok(s.ram, cr3)) by {
        reveal(space_ok);
    }
    lemma_reflagged_entries(s, cr3, addr as int, n, page_flags(prot, nx), v);
    if let Some(e) = leaf_of(s.ram, cr3, v) {
        lemma_target_aligned(e);
        lemma_aligned(target(e));
        law_page_entry(target(e), page_flags(prot, nx));
    }
}

proof fn lemma_protectable(t: Table, ram: Seq<u64>, cr3: u64, at: int, end: int, prot: u64, v: u64)
    requires
        table_ok(t),
        crate::vm::protectable(t, ram, cr3, at, end, prot) is Ok,
        0 <= at,
        at % 4096 == 0,
        end <= USER_END,
        v % 4096 == 0,
        at <= v < end,
    ensures
        match mapping_at(t, cr3, v) {
            Some((_, shared, _, _)) => shared ==> prot & 2 == 0,
            None => leaf_of(ram, cr3, v) is Some,
        },
    decreases end - at,
{
    lemma_region_from(t, cr3, at as u64, 0);
    lemma_region_from(t, cr3, v, 0);
    match region_from(t, cr3, at as u64, 0) {
        Some(i) => {
            let r = t[i]->0;
            assert(r.wf());
            if v < r.end {
                assert(r.covers(cr3, v));
                let j = region_from(t, cr3, v, 0)->0;
                if i < j {
                    assert(!r.overlaps(t[j]->0));
                } else if j < i {
                    assert(!(t[j]->0).overlaps(r));
                }
            } else {
                lemma_protectable(t, ram, cr3, r.end as int, end, prot, v);
            }
        },
        None => {
            if v != at {
                lemma_protectable(t, ram, cr3, at + 4096, end, prot, v);
            }
        },
    }
}

/// Protection is changed only where every page is mapped or present, and what
/// is shared is not made writable. A place that is not the start of a page, or
/// a protection with other bits than the three, is refused.
pub proof fn law_protection_is_changed_where_mapped(
    t: Table,
    s: Mem,
    cr3: u64,
    nx: bool,
    addr: u64,
    len: u64,
    prot: u64,
    v: u64,
)
    requires
        table_ok(t),
        len > 0,
    ensures
        addr % 4096 != 0 || prot > 7 ==> protecting(t, s, cr3, nx, addr, len, prot) == (t, s, Err::<(), i64>(-22i64)),
        protecting(t, s, cr3, nx, addr, len, prot).2 is Ok && page_in(addr, len, v) ==> match mapping_at(t, cr3, v) {
            Some((_, shared, _, _)) => shared ==> prot & 2 == 0,
            None => page_entry(s.ram, cr3, v) is Some,
        },
{
    law_walks_agree(s.ram, cr3, v);
    if protecting(t, s, cr3, nx, addr, len, prot).2 is Ok && page_in(addr, len, v) {
        let end = range_end(addr, len)->Ok_0;
        assert(v < end);
        lemma_protectable(t, s.ram, cr3, addr as int, end as int, prot, v);
    }
}

// ---- Mapping and unmapping ----

/// Every byte that was asked for is mapped: from the start of a page on, in
/// the half of programs, with the protection, the backing and the place in it
/// that were asked for. What is mapped elsewhere stays, but for what shares a
/// page with the new mapping.
pub proof fn law_mapped_bytes(
    t: Table,
    s: Mem,
    cr3: u64,
    addr: u64,
    len: u64,
    prot: u64,
    map_flags: u64,
    backing: Option<FileBacking>,
    offset: u64,
    a: u64,
)
    requires
        table_ok(t),
        crate::vm::mapping(t, s, cr3, addr, len, prot, map_flags, backing, offset).2 is Ok,
    ensures
        ({
            let (t1, _, r) = crate::vm::mapping(t, s, cr3, addr, len, prot, map_flags, backing, offset);
            let start = r->Ok_0 as u64;
            &&& start % 4096 == 0
            &&& 4096 <= start
            &&& start + len <= 0x8000_0000_0000
            &&& prot <= 7 && len > 0 && offset % 4096 == 0
            &&& map_flags & 3 == 1 || map_flags & 3 == 2
            &&& map_flags & 0x10 != 0 ==> start == addr
            &&& start <= a < start + len ==> mapping_at(t1, cr3, a) == Some(
                (prot, map_flags & 3 == 1, backing, offset + (a - start)),
            )
            &&& a < start || start + len + 4095 <= a ==> mapping_at(t1, cr3, a) == mapping_at(t, cr3, a)
        }),
{
    crate::vm::law_mapping(t, s, cr3, addr, len, prot, map_flags, backing, offset, cr3, a);
}

proof fn lemma_pages_freed_entries(s: Mem, cr3: u64, start: int, n: nat, v: u64)
    requires
        s.wf(),
        space_ok(s, cr3),
        0 <= start,
        start % 4096 == 0,
        start + 4096 * n <= USER_END,
        v % 4096 == 0,
        v < USER_END,
    ensures
        leaf_of(crate::vm::pages_freed(s, cr3, start, n).ram, cr3, v) == if start <= v < start + 4096 * n {
            None
        } else {
            leaf_of(s.ram, cr3, v)
        },
    decreases n,
{
    if n > 0 {
        let m = (n - 1) as nat;
        lemma_pages_freed_entries(s, cr3, start, m, v);
        law_pages_freed(s, cr3, start, m);
        let w = (start + 4096 * m) as u64;
        law_page_freed(crate::vm::pages_freed(s, cr3, start, m), cr3, w);
        if same_page(w, v) {
            lemma_same_page(w, v);
        }
    }
}

/// An address and the start of its page have one entry.
proof fn lemma_page_start(ram: Seq<u64>, cr3: u64, a: u64)
    ensures
        leaf_of(ram, cr3, a) == leaf_of(ram, cr3, (a - a % 4096) as u64),
{
    reveal(index);
    lemma_same_leaf(ram, cr3, a, (a - a % 4096) as u64);
}

/// After memory has been unmapped, none of its bytes is mapped and none of
/// its pages has an entry. What lies outside its pages is mapped as before.
#[verifier::spinoff_prover]
#[verifier::rlimit(40)]
pub proof fn law_unmapped_bytes(t: Table, s: Mem, cr3: u64, addr: u64, len: u64, a: u64)
    requires
        table_ok(t),
        s.wf(),
        space_ok(s, cr3),
        crate::vm::unmapping(t, s, cr3, addr, len).2 is Ok,
    ensures
        ({
            let (t1, s1, _) = crate::vm::unmapping(t, s, cr3, addr, len);
            &&& addr <= a < addr + len ==> mapping_at(t1, cr3, a) is None && page_entry(s1.ram, cr3, a) is None
            &&& a < addr || addr + len + 4095 <= a ==> mapping_at(t1, cr3, a) == mapping_at(t, cr3, a)
            &&& a < addr || addr + len + 4095 <= a < 0x8000_0000_0000 ==> page_entry(s1.ram, cr3, a) == page_entry(
                s.ram,
                cr3,
                a,
            )
        }),
{
    crate::vm::law_unmapping(t, s, cr3, addr, len, cr3, a);
    let (t1, s1, _) = crate::vm::unmapping(t, s, cr3, addr, len);
    law_walks_agree(s.ram, cr3, a);
    law_walks_agree(s1.ram, cr3, a);
    lemma_page_start(s.ram, cr3, a);
    lemma_page_start(s1.ram, cr3, a);
    let end = range_end(addr, len)->Ok_0;
    if a < USER_END {
        lemma_pages_freed_entries(s, cr3, addr as int, ((end - addr) / 4096) as nat, (a - a % 4096) as u64);
    }
}

proof fn lemma_protectable_error(t: Table, ram: Seq<u64>, cr3: u64, at: int, end: int, prot: u64)
    ensures
        crate::vm::protectable(t, ram, cr3, at, end, prot) matches Err(e) ==> e == -13 || e == -12,
    decreases
        (if end > at {
            end - at
        } else {
            0
        }),
{
    if at < end {
        match region_from(t, cr3, at as u64, 0) {
            Some(i) => {
                if (t[i]->0).end > at {
                    lemma_protectable_error(t, ram, cr3, (t[i]->0).end as int, end, prot);
                }
            },
            None => {
                lemma_protectable_error(t, ram, cr3, at + 4096, end, prot);
            },
        }
    }
}

/// A request to change protection is answered with success or with the number
/// of an error, which is negative: 22 for arguments that make no sense, 13 for
/// what may not be written, 12 for what is not mapped or for want of room.
pub proof fn law_protecting_answers(t: Table, s: Mem, cr3: u64, nx: bool, addr: u64, len: u64, prot: u64)
    ensures
        protecting(t, s, cr3, nx, addr, len, prot).2 matches Err(e) ==> e == -22 || e == -13 || e == -12,
{
    if let Ok(end) = range_end(addr, len) {
        lemma_protectable_error(t, s.ram, cr3, addr as int, end as int, prot);
    }
}

/// A request to unmap is refused with 22 or 12 or not at all.
pub proof fn law_unmapping_answers(t: Table, s: Mem, cr3: u64, addr: u64, len: u64)
    ensures
        crate::vm::unmapping(t, s, cr3, addr, len).2 matches Err(e) ==> e == -22 || e == -12,
{
}

/// A request to map is refused with 22, 38 or 12; else it is answered with an
/// address, which is not negative.
pub proof fn law_mapping_answers(
    t: Table,
    s: Mem,
    cr3: u64,
    addr: u64,
    len: u64,
    prot: u64,
    map_flags: u64,
    backing: Option<FileBacking>,
    offset: u64,
)
    ensures
        match crate::vm::mapping(t, s, cr3, addr, len, prot, map_flags, backing, offset).2 {
            Err(e) => e == -22 || e == -38 || e == -12,
            Ok(v) => 0 <= v < 0x8000_0000_0000,
        },
{
}

} // verus!
