//! Setting up memory, and what there is to say about it.
use crate::heap::heap_mapped;
use crate::limine::{MemmapEntry, MemmapKind};
use crate::paging::{
    current_cr3, entry, leaf_of, lemma_missing, links, path_ok, read_entry, table_at, tables_ok, tables_used, target,
    Mem, Memory, PAGE_HUGE, PAGE_PRESENT,
};
use crate::pmm::{initial_used, map_is_valid, stats, valid_map, Frames, Pmm};
use crate::ram::in_ram;
use crate::space::{data_apart, lower, space_ok};
use crate::survey::survey;
use crate::text::{decimal, push_decimal, push_str, text_of};
use crate::vaddr::{index, lemma_index};
use vstd::prelude::*;
use vstd::string::*;

verus! {

broadcast use lemma_index;

/// Memory as it is once the allocator of frames is set up.
pub open spec fn framed(mem: Memory, entries: Seq<MemmapEntry>) -> Mem {
    Mem { ram: mem.ram@, frames: Frames { used: initial_used(entries), hint: 0 } }
}

/// Sets up the allocator of frames from the memory map, and maps the heap.
pub fn init(mem: &mut Memory, hhdm_offset: u64, entries: &[MemmapEntry]) -> (r: Result<(), &'static str>)
    requires
        valid_map(entries@),
        framed(*old(mem), entries@).wf(),
        space_ok(framed(*old(mem), entries@), target(old(mem).cr3)),
    ensures
        final(mem).wf(),
        space_ok(final(mem)@, target(final(mem).cr3)),
        final(mem).cr3 == old(mem).cr3,
        final(mem).nx == old(mem).nx,
        final(mem).pmm.ready(),
        final(mem).pmm.offset() == hhdm_offset,
        (final(mem)@, r) == heap_mapped(framed(*old(mem), entries@), target(old(mem).cr3), 24576),
{
    crate::pmm::init(&mut mem.pmm, hhdm_offset, entries);
    crate::heap::init(mem)
}

/// Whether a program has nothing mapped: no entry of the lower half of the
/// root links a table.
pub open spec fn lower_empty(ram: Seq<u64>, pml4: u64) -> bool {
    forall|i: int| 0 <= i < 256 ==> !links(#[trigger] entry(ram, pml4, i))
}

proof fn lemma_lower_empty(s: Mem, pml4: u64)
    requires
        lower_empty(s.ram, pml4),
    ensures
        data_apart(s, pml4),
{
    reveal(data_apart);
    assert forall|v: u64| lower(v) implies #[trigger] leaf_of(s.ram, pml4, v) is None by {
        assert(table_at(s.ram, pml4, v, 0) == Some(pml4));
        assert(!links(entry(s.ram, pml4, index(v, 0))));
        assert(table_at(s.ram, pml4, v, 1) is None);
        lemma_missing(s.ram, pml4, v, 1, 3);
    }
}

/// Whether memory can be set up: the memory map makes sense, all memory in it
/// is there, the current tables are in order, and no program has anything
/// mapped yet.
pub open spec fn startable(mem: Memory, entries: Seq<MemmapEntry>) -> bool {
    let s = framed(mem, entries);
    &&& valid_map(entries)
    &&& s.wf()
    &&& tables_ok(s.ram, target(mem.cr3))
    &&& tables_used(s, target(mem.cr3))
    &&& lower_empty(s.ram, target(mem.cr3))
}

pub const NOT_STARTABLE: &'static str = "memory: what the bootloader has set up is not in order";

/// Sets memory up after testing that it can be. Where it cannot, no memory
/// has been written, and of the allocator only what the memory map says has
/// been set up, if that makes sense.
pub fn start(mem: &mut Memory, hhdm_offset: u64, entries: &[MemmapEntry]) -> (r: Result<(), &'static str>)
    ensures
        final(mem).cr3 == old(mem).cr3,
        final(mem).nx == old(mem).nx,
        if startable(*old(mem), entries@) {
            &&& final(mem).wf()
            &&& final(mem).pmm.ready()
            &&& final(mem).pmm.offset() == hhdm_offset
            &&& space_ok(final(mem)@, target(final(mem).cr3))
            &&& (final(mem)@, r) == heap_mapped(framed(*old(mem), entries@), target(old(mem).cr3), 24576)
        } else {
            &&& r == Err::<(), &'static str>(NOT_STARTABLE)
            &&& final(mem).ram == old(mem).ram
            &&& if valid_map(entries@) {
                &&& final(mem).pmm.ready()
                &&& final(mem).pmm.offset() == hhdm_offset
                &&& final(mem).pmm@ == framed(*old(mem), entries@).frames
            } else {
                final(mem).pmm == old(mem).pmm
            }
        },
{
    if !map_is_valid(entries) {
        return Err(NOT_STARTABLE);
    }
    crate::pmm::init(&mut mem.pmm, hhdm_offset, entries);
    let frames: u64 = stats(&mem.pmm).0;
    let words: u64 = mem.ram.len() as u64;
    if words > 0x2_0000_0000_0000 || frames > words / 512 {
        return Err(NOT_STARTABLE);
    }
    assert(mem@ == framed(*old(mem), entries@));
    let space: u64 = current_cr3(mem);
    if !survey(mem, space) {
        return Err(NOT_STARTABLE);
    }
    proof {
        assert(path_ok(mem.ram@, space, 0));
        assert(table_at(mem.ram@, space, 0, 0) == Some(space));
    }
    for i in 0..256usize
        invariant
            in_ram(mem.ram@, space),
            space == target(old(mem).cr3),
            mem.ram == old(mem).ram,
            mem.cr3 == old(mem).cr3,
            mem.nx == old(mem).nx,
            mem.pmm.ready(),
            mem.pmm.offset() == hhdm_offset,
            mem.wf(),
            mem@ == framed(*old(mem), entries@),
            tables_ok(mem.ram@, space),
            tables_used(mem@, space),
            valid_map(entries@),
            forall|j: int| 0 <= j < i ==> !links(#[trigger] entry(mem.ram@, space, j)),
    {
        let e: u64 = read_entry(&mem.ram, space, i);
        if e & PAGE_PRESENT != 0 && e & PAGE_HUGE == 0 {
            assert(links(entry(mem.ram@, space, i as int)));
            return Err(NOT_STARTABLE);
        }
    }
    proof {
        lemma_lower_empty(mem@, space);
        reveal(space_ok);
    }
    crate::heap::init(mem)
}

/// Whether a vector of 64 squares reads back as it was filled.
pub fn self_test() -> (r: bool)
    ensures
        r,
{
    let mut v: Vec<u32> = Vec::new();
    for i in 0..64u32
        invariant
            v@.len() == i,
            forall|k: int| 0 <= k < i ==> #[trigger] v@[k] == k * k,
    {
        assert(i * i <= 63 * 63) by (nonlinear_arith)
            requires
                0 <= i < 64,
        ;
        v.push(i * i);
    }
    if v.len() != 64 {
        return false;
    }
    for i in 0..64u32
        invariant
            v@.len() == 64,
            forall|k: int| 0 <= k < 64 ==> #[trigger] v@[k] == k * k,
    {
        assert(i * i <= 63 * 63) by (nonlinear_arith)
            requires
                0 <= i < 64,
        ;
        if v[i as usize] != i * i {
            return false;
        }
    }
    true
}

pub const MIB: u64 = 0x10_0000;

pub const FRAMES_PER_MIB: u64 = 256;

/// How much memory there is, in frames and on the heap.
pub open spec fn info_text(total: nat, free: nat, heap_free: nat, mapped: nat) -> Seq<u8> {
    let used = (total - free) as nat;
    "physical: ".spec_bytes() + decimal(used * 4096 / 0x10_0000) + " MiB used, ".spec_bytes() + decimal(
        free * 4096 / 0x10_0000,
    ) + " MiB free, ".spec_bytes() + decimal(total * 4096 / 0x10_0000) + " MiB total (".spec_bytes() + decimal(total)
        + " frames @ 4 KiB)\nphysical (exact): ".spec_bytes() + decimal(used) + " used frames, ".spec_bytes()
        + decimal(free) + " free frames\nheap: ".spec_bytes() + decimal(heap_free / 1024)
        + " KiB free (bump), ".spec_bytes() + decimal(mapped / 1024)
        + " KiB mapped\nheap self-test: OK (allocated + verified a 64-element Vec)\n".spec_bytes()
}

/// What `meminfo` shows: the frames, the heap, and a test of it.
pub fn print_info(pmm: &Pmm, heap_free: u64, mapped: u64) -> (r: Vec<u8>)
    requires
        pmm.wf(),
    ensures
        r@ == info_text(pmm@.used.len(), pmm@.free(), heap_free as nat, mapped as nat),
{
    let (total, free): (u64, u64) = crate::pmm::stats(pmm);
    proof {
        lemma_free_among(pmm@.used, pmm@.used.len() as int);
    }
    let used: u64 = total - free;
    let mut out = text_of("physical: ");
    push_decimal(&mut out, used / FRAMES_PER_MIB);
    push_str(&mut out, " MiB used, ");
    push_decimal(&mut out, free / FRAMES_PER_MIB);
    push_str(&mut out, " MiB free, ");
    push_decimal(&mut out, total / FRAMES_PER_MIB);
    push_str(&mut out, " MiB total (");
    push_decimal(&mut out, total);
    push_str(&mut out, " frames @ 4 KiB)\nphysical (exact): ");
    push_decimal(&mut out, used);
    push_str(&mut out, " used frames, ");
    push_decimal(&mut out, free);
    push_str(&mut out, " free frames\nheap: ");
    push_decimal(&mut out, heap_free / 1024);
    push_str(&mut out, " KiB free (bump), ");
    push_decimal(&mut out, mapped / 1024);
    if self_test() {
        push_str(&mut out, " KiB mapped\nheap self-test: OK (allocated + verified a 64-element Vec)\n");
    } else {
        push_str(&mut out, " KiB mapped\nheap self-test: FAILED\n");
    }
    out
}

proof fn lemma_free_among(used: Seq<bool>, n: int)
    requires
        n <= used.len(),
    ensures
        crate::pmm::free_among(used, n) <= if n > 0 { n } else { 0 },
    decreases n,
{
    if n > 0 {
        lemma_free_among(used, n - 1);
    }
}

/// How many bytes of the first `n` regions are usable.
pub open spec fn usable(entries: Seq<MemmapEntry>, n: int) -> nat
    decreases n,
{
    if n <= 0 {
        0
    } else {
        usable(entries, n - 1) + if entries[n - 1].kind == MemmapKind::Usable {
            entries[n - 1].length as nat
        } else {
            0
        }
    }
}

proof fn lemma_usable(entries: Seq<MemmapEntry>, n: int, m: int)
    requires
        n <= m,
    ensures
        usable(entries, n) <= usable(entries, m),
    decreases m - n,
{
    if n < m && m > 0 {
        lemma_usable(entries, n, m - 1);
    }
}

/// What is said about the memory map at boot.
pub fn memory_map_text(entries: &[MemmapEntry]) -> (r: Vec<u8>)
    requires
        usable(entries@, entries@.len() as int) <= u64::MAX,
    ensures
        r@ == "memory map: ".spec_bytes() + decimal(entries@.len()) + " entries, ".spec_bytes() + decimal(
            usable(entries@, entries@.len() as int) / 0x10_0000,
        ) + " MiB usable\n".spec_bytes(),
{
    let mut usable_bytes: u64 = 0;
    let n: usize = entries.len();
    for i in 0..n
        invariant
            n == entries@.len(),
            usable_bytes == usable(entries@, i as int),
            usable(entries@, n as int) <= u64::MAX,
    {
        proof {
            lemma_usable(entries@, i + 1, n as int);
        }
        if entries[i].kind == MemmapKind::Usable {
            usable_bytes = usable_bytes + entries[i].length;
        }
    }
    let mut out = text_of("memory map: ");
    push_decimal(&mut out, n as u64);
    push_str(&mut out, " entries, ");
    push_decimal(&mut out, usable_bytes / MIB);
    push_str(&mut out, " MiB usable\n");
    out
}

} // verus!
