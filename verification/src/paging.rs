//! Four-level x86_64 page tables: walking them, adding, removing and changing
//! mappings, and building and tearing down whole address spaces.
use crate::pmm::{alloc_frame, free_frame, law_allocation, Frames, Pmm, FRAME_SIZE};
use crate::ram::{in_ram, zero_frame, zeroed};
use crate::vaddr::{index, lemma_index, same_page, same_prefix};
use crate::vm::{destroy, without_space, Regions};
use vstd::prelude::*;

verus! {

pub const PAGE_PRESENT: u64 = 1;
pub const PAGE_WRITABLE: u64 = 2;
pub const PAGE_USER: u64 = 4;
pub const PAGE_NX: u64 = 0x8000_0000_0000_0000;
pub const PAGE_HUGE: u64 = 0x80;
pub const ADDR_MASK: u64 = 0x000F_FFFF_FFFF_F000;

/// Everything that the memory subsystem owns: physical memory, the frame
/// allocator, the page-table base register and whether the CPU has NX.
pub struct Memory {
    pub ram: Vec<u64>,
    pub pmm: Pmm,
    pub cr3: u64,
    pub nx: bool,
}

/// The contents of memory and the state of the frame allocator.
pub ghost struct Mem {
    pub ram: Seq<u64>,
    pub frames: Frames,
}

impl Memory {
    pub open spec fn view(self) -> Mem {
        Mem { ram: self.ram@, frames: self.pmm@ }
    }

    /// Every frame that the allocator tracks lies in memory.
    pub open spec fn wf(self) -> bool {
        self.pmm.wf() && self@.wf()
    }
}

impl Mem {
    pub open spec fn wf(self) -> bool {
        &&& 0 <= self.frames.hint <= self.frames.used.len() <= 0x10_0000_0000_0000
        &&& self.frames.used.len() * 512 <= self.ram.len()
        &&& self.ram.len() <= 0x2_0000_0000_0000
    }
}

pub open spec fn present(e: u64) -> bool {
    e & PAGE_PRESENT != 0
}

pub open spec fn huge(e: u64) -> bool {
    e & PAGE_HUGE != 0
}

/// The frame that an entry points at.
pub open spec fn target(e: u64) -> u64 {
    e & ADDR_MASK
}

/// The entry that maps frame `phys` with `flags`.
pub open spec fn leaf(phys: u64, flags: u64) -> u64 {
    phys | PAGE_PRESENT | flags
}

/// The entry that links a further table at frame `phys`.
pub open spec fn link(phys: u64) -> u64 {
    phys | PAGE_PRESENT | PAGE_WRITABLE | PAGE_USER
}

broadcast use lemma_index;

/// The word of memory that holds entry `i` of a table.
pub open spec fn slot(table: u64, i: int) -> int {
    (table / 8) as int + i
}

pub open spec fn entry(ram: Seq<u64>, table: u64, i: int) -> u64 {
    ram[slot(table, i)]
}

/// Whether an entry above the last level links a further table. One that maps
/// a large page does not.
pub open spec fn links(e: u64) -> bool {
    present(e) && !huge(e)
}

/// The table at `level` on the way to `virt`, if the tables above link one.
pub open spec fn table_at(ram: Seq<u64>, pml4: u64, virt: u64, level: int) -> Option<u64>
    decreases level,
{
    if level <= 0 {
        Some(pml4)
    } else {
        match table_at(ram, pml4, virt, level - 1) {
            None => None,
            Some(t) => {
                let e = entry(ram, t, index(virt, level - 1));
                if links(e) {
                    Some(target(e))
                } else {
                    None
                }
            },
        }
    }
}

/// The present leaf entry for `virt`, if there is one.
pub open spec fn leaf_of(ram: Seq<u64>, pml4: u64, virt: u64) -> Option<u64> {
    match table_at(ram, pml4, virt, 3) {
        None => None,
        Some(t) => {
            let e = entry(ram, t, index(virt, 3));
            if present(e) {
                Some(e)
            } else {
                None
            }
        },
    }
}

/// The frame that `virt` is mapped to.
pub open spec fn translation(ram: Seq<u64>, pml4: u64, virt: u64) -> Option<u64> {
    match leaf_of(ram, pml4, virt) {
        Some(e) => Some(target(e)),
        None => None,
    }
}

/// Every table on the way to `virt` lies in memory.
pub open spec fn path_ok(ram: Seq<u64>, pml4: u64, virt: u64) -> bool {
    forall|n: int|
        0 <= n <= 3 ==> (#[trigger] table_at(ram, pml4, virt, n) matches Some(t) ==> in_ram(ram, t))
}

/// Whether the allocator will not hand out the frame at `phys`: it has it
/// marked used, or does not track it.
pub open spec fn not_free(frames: Frames, phys: u64) -> bool {
    phys / FRAME_SIZE < frames.used.len() ==> frames.used[(phys / FRAME_SIZE) as int]
}

/// The allocator will not hand out any table on the way to `virt`.
pub open spec fn path_used(s: Mem, pml4: u64, virt: u64) -> bool {
    forall|n: int|
        0 <= n <= 3 ==> (#[trigger] table_at(s.ram, pml4, virt, n) matches Some(t) ==> not_free(
            s.frames,
            t,
        ))
}

/// The tables of an address space all lie in memory and form a tree.
pub open spec fn tables_ok(ram: Seq<u64>, pml4: u64) -> bool {
    (forall|v: u64| path_ok(ram, pml4, v)) && tree(ram, pml4)
}

/// No table is reached along two different ways.
#[verifier::opaque]
pub open spec fn tree(ram: Seq<u64>, pml4: u64) -> bool {
    forall|v: u64, n: int, w: u64, k: int|
        0 <= n <= 3 && 0 <= k <= 3 && (#[trigger] table_at(ram, pml4, v, n)) is Some && table_at(
            ram,
            pml4,
            v,
            n,
        ) == (#[trigger] table_at(ram, pml4, w, k)) ==> n == k && same_prefix(v, w, n)
}

/// The allocator will not hand out any table of an address space.
pub open spec fn tables_used(s: Mem, pml4: u64) -> bool {
    forall|v: u64| path_used(s, pml4, v)
}

/// Follows entry `i` of a table, linking a fresh zeroed table there first if
/// it is not present. `None` when that takes a frame and none is free, or a
/// large page is mapped there.
pub open spec fn ensured(s: Mem, table: u64, i: int) -> Option<(Mem, u64)> {
    let e = entry(s.ram, table, i);
    if links(e) {
        Some((s, target(e)))
    } else if present(e) {
        None
    } else {
        match s.frames.take() {
            (frames, Some(p)) => Some(
                (Mem { ram: zeroed(s.ram, p).update(slot(table, i), link(p)), frames }, p),
            ),
            (_, None) => None,
        }
    }
}

/// Makes sure that `virt` has its tables down to `level`.
pub open spec fn ensured_to(s: Mem, pml4: u64, virt: u64, level: int) -> Option<(Mem, u64)>
    decreases level,
{
    if level <= 0 {
        Some((s, pml4))
    } else {
        match ensured_to(s, pml4, virt, level - 1) {
            Some((s1, t)) => ensured(s1, t, index(virt, level - 1)),
            None => None,
        }
    }
}

/// Memory after mapping `virt` to `phys`. `None` when a table is missing and
/// there is no frame for it, or a large page is in the way.
pub open spec fn mapped(s: Mem, pml4: u64, virt: u64, phys: u64, flags: u64) -> Option<Mem> {
    match ensured_to(s, pml4, virt, 3) {
        Some((s1, t)) => Some(
            Mem { ram: s1.ram.update(slot(t, index(virt, 3)), leaf(phys, flags)), ..s1 },
        ),
        None => None,
    }
}

/// Memory after removing the mapping of `virt`.
pub open spec fn unmapped(ram: Seq<u64>, pml4: u64, virt: u64) -> Seq<u64> {
    match (table_at(ram, pml4, virt, 3), leaf_of(ram, pml4, virt)) {
        (Some(t), Some(_)) => ram.update(slot(t, index(virt, 3)), 0),
        _ => ram,
    }
}

/// Memory after giving the page of `virt`, if it is mapped, other flags.
pub open spec fn reflagged(ram: Seq<u64>, pml4: u64, virt: u64, flags: u64) -> Seq<u64> {
    match (table_at(ram, pml4, virt, 3), leaf_of(ram, pml4, virt)) {
        (Some(t), Some(e)) => ram.update(slot(t, index(virt, 3)), leaf(target(e), flags)),
        _ => ram,
    }
}

/// Memory after giving every mapped page among `pages` pages from `addr` on
/// other flags.
pub open spec fn reflagged_pages(ram: Seq<u64>, pml4: u64, addr: int, pages: nat, flags: u64) -> Seq<u64>
    decreases pages,
{
    if pages == 0 {
        ram
    } else {
        let before = reflagged_pages(ram, pml4, addr, (pages - 1) as nat, flags);
        reflagged(before, pml4, (addr + 4096 * (pages - 1)) as u64, flags)
    }
}

/// What an entry's parts are, for entries that this module writes.
pub proof fn lemma_entries(phys: u64, flags: u64, e: u64)
    by (bit_vector)
    requires
        phys & !ADDR_MASK == 0,
        flags & ADDR_MASK == 0,
    ensures
        present(leaf(phys, flags)),
        target(leaf(phys, flags)) == phys,
        links(link(phys)),
        target(link(phys)) == phys,
        !present(0),
        target(e) % 4096 == 0,
        target(e) & !ADDR_MASK == 0,
{
}

pub proof fn lemma_aligned(phys: u64)
    by (bit_vector)
    requires
        phys % 4096 == 0,
        phys < 0x10_0000_0000_0000,
    ensures
        phys & !0x000F_FFFF_FFFF_F000u64 == 0,
{
}

pub proof fn lemma_target_aligned(e: u64)
    by (bit_vector)
    ensures
        target(e) % 4096 == 0,
        target(e) < 0x10_0000_0000_0000,
{
}

pub proof fn lemma_zero_absent()
    by (bit_vector)
    ensures
        !present(0),
{
}

pub(crate) fn indices(virt: u64) -> (r: [usize; 4])
    ensures
        forall|n: int| 0 <= n < 4 ==> #[trigger] r@[n] == index(virt, n),
{
    reveal(index);
    [
        ((virt / 0x80_0000_0000) % 512) as usize,
        ((virt / 0x4000_0000) % 512) as usize,
        ((virt / 0x20_0000) % 512) as usize,
        ((virt / 0x1000) % 512) as usize,
    ]
}

pub(crate) fn read_entry(ram: &Vec<u64>, table: u64, i: usize) -> (r: u64)
    requires
        in_ram(ram@, table),
        i < 512,
    ensures
        r == entry(ram@, table, i as int),
{
    assert(ram.len() == ram@.len());
    ram[(table / 8) as usize + i]
}

fn write_entry(ram: &mut Vec<u64>, table: u64, i: usize, e: u64)
    requires
        in_ram(old(ram)@, table),
        i < 512,
    ensures
        final(ram)@ == old(ram)@.update(slot(table, i as int), e),
{
    assert(ram.len() == ram@.len());
    ram[(table / 8) as usize + i] = e;
}

/// The frame of the root table that the register value names.
pub fn current_cr3(mem: &Memory) -> (r: u64)
    ensures
        r == target(mem.cr3),
{
    mem.cr3 & ADDR_MASK
}

/// Whether pages can be marked not executable.
pub fn nx_available(mem: &Memory) -> (r: bool)
    ensures
        r == mem.nx,
{
    mem.nx
}

pub const EDX_NX_BIT: u32 = 0x10_0000;

pub const EFER_NXE: u64 = 0x800;

/// Notes whether the CPU has NX, from the extended feature bits it reports,
/// and returns the value that its feature register must be given for it.
pub fn init(mem: &mut Memory, edx: u32, efer: u64) -> (r: Option<u64>)
    ensures
        edx & EDX_NX_BIT == 0 ==> r is None && *final(mem) == *old(mem),
        edx & EDX_NX_BIT != 0 ==> r == Some(efer | EFER_NXE) && final(mem).nx && final(mem)@ == old(mem)@ && final(mem).cr3 == old(mem).cr3 && final(mem).pmm == old(mem).pmm,
{
    if edx & EDX_NX_BIT == 0 {
        return None;
    }
    mem.nx = true;
    Some(efer | EFER_NXE)
}

/// Walks the tables to the leaf entry of `virt` and returns its table too.
fn walk(ram: &Vec<u64>, pml4: u64, virt: u64) -> (r: Option<(u64, usize, u64)>)
    requires
        path_ok(ram@, pml4, virt),
    ensures
        match r {
            Some((t, i, e)) => table_at(ram@, pml4, virt, 3) == Some(t) && i == index(virt, 3)
                && leaf_of(ram@, pml4, virt) == Some(e) && in_ram(ram@, t) && i < 512,
            None => leaf_of(ram@, pml4, virt) is None,
        },
{
    let idx = indices(virt);
    let mut table: u64 = pml4;
    assert(table_at(ram@, pml4, virt, 0) == Some(pml4));
    for level in 0..3usize
        invariant
            path_ok(ram@, pml4, virt),
            table_at(ram@, pml4, virt, level as int) == Some(table),
            forall|n: int| 0 <= n < 4 ==> #[trigger] idx@[n] == index(virt, n),
    {
        assert(idx@[level as int] == index(virt, level as int));
        let e: u64 = read_entry(ram, table, idx[level]);
        if e & PAGE_PRESENT == 0 || e & PAGE_HUGE != 0 {
            proof {
                assert(table_at(ram@, pml4, virt, level + 1) is None);
                lemma_missing(ram@, pml4, virt, level + 1, 3);
            }
            return None;
        }
        table = e & ADDR_MASK;
        assert(table_at(ram@, pml4, virt, level + 1) == Some(table));
    }
    assert(idx@[3] == index(virt, 3));
    let e: u64 = read_entry(ram, table, idx[3]);
    if e & PAGE_PRESENT == 0 {
        return None;
    }
    Some((table, idx[3], e))
}

pub proof fn lemma_missing(ram: Seq<u64>, pml4: u64, virt: u64, n: int, k: int)
    requires
        0 <= n <= k,
        table_at(ram, pml4, virt, n) is None,
    ensures
        table_at(ram, pml4, virt, k) is None,
    decreases k - n,
{
    if n < k {
        lemma_missing(ram, pml4, virt, n, k - 1);
    }
}

/// The frame that `virt` is mapped to in the address space at `pml4`.
pub fn translate(mem: &Memory, pml4: u64, virt: u64) -> (r: Option<u64>)
    requires
        path_ok(mem.ram@, pml4, virt),
    ensures
        r == translation(mem.ram@, pml4, virt),
{
    match walk(&mem.ram, pml4, virt) {
        Some((_, _, e)) => Some(e & ADDR_MASK),
        None => None,
    }
}

/// Removes the mapping of `virt`, returning the frame that it was mapped to.
pub fn unmap_page(mem: &mut Memory, pml4: u64, virt: u64) -> (r: Option<u64>)
    requires
        path_ok(old(mem).ram@, pml4, virt),
    ensures
        r == translation(old(mem).ram@, pml4, virt),
        final(mem).ram@ == unmapped(old(mem).ram@, pml4, virt),
        final(mem).pmm == old(mem).pmm,
        final(mem).cr3 == old(mem).cr3,
        final(mem).nx == old(mem).nx,
{
    match walk(&mem.ram, pml4, virt) {
        Some((t, i, e)) => {
            write_entry(&mut mem.ram, t, i, 0);
            Some(e & ADDR_MASK)
        },
        None => None,
    }
}

/// A word of a zeroed frame is zero, and every other word is as it was.
pub(crate) proof fn lemma_zeroed(ram: Seq<u64>, p: u64, t: u64, i: int)
    requires
        in_ram(ram, p),
        in_ram(ram, t),
        0 <= i < 512,
    ensures
        entry(zeroed(ram, p), t, i) == if t == p {
            0
        } else {
            entry(ram, t, i)
        },
{
}

/// The frame that an allocation hands out lies in memory.
pub proof fn lemma_taken(s: Mem)
    requires
        s.wf(),
    ensures
        s.frames.take().1 matches Some(p) ==> in_ram(s.ram, p) && p & !ADDR_MASK == 0 && p / FRAME_SIZE
            < s.frames.used.len() && !s.frames.used[(p / FRAME_SIZE) as int] && (Mem {
            ram: s.ram,
            frames: s.frames.take().0,
        }).wf() && s.frames.take().0.used == s.frames.used.update((p / FRAME_SIZE) as int, true),
{
    law_allocation(s.frames);
    if let Some(p) = s.frames.take().1 {
        lemma_aligned(p);
    }
}

/// Follows entry `i` of a table, linking a fresh zeroed table there first if
/// it is not present.
fn ensure_table(mem: &mut Memory, table: u64, i: usize) -> (r: u64)
    requires
        old(mem).wf(),
        in_ram(old(mem).ram@, table),
        i < 512,
        ensured(old(mem)@, table, i as int) is Some,
    ensures
        final(mem).wf(),
        ensured(old(mem)@, table, i as int) == Some((final(mem)@, r)),
        final(mem).ram.len() == old(mem).ram.len(),
        final(mem).cr3 == old(mem).cr3,
        final(mem).nx == old(mem).nx,
        final(mem).pmm.ready() == old(mem).pmm.ready(),
        final(mem).pmm.offset() == old(mem).pmm.offset(),
        !present(entry(old(mem).ram@, table, i as int)) ==> in_ram(final(mem).ram@, r),
{
    let e: u64 = read_entry(&mem.ram, table, i);
    if e & PAGE_PRESENT != 0 {
        return e & ADDR_MASK;
    }
    proof {
        lemma_taken(mem@);
    }
    match alloc_frame(&mut mem.pmm) {
        Some(p) => {
            zero_frame(&mut mem.ram, p);
            write_entry(&mut mem.ram, table, i, p | PAGE_PRESENT | PAGE_WRITABLE | PAGE_USER);
            p
        },
        None => {
            assert(false);
            0
        },
    }
}

/// While every table met so far was there already, nothing has changed; once
/// one has been linked, it is a fresh table of absent entries.
spec fn so_far(s: Mem, s1: Mem, pml4: u64, virt: u64, level: int, t: u64) -> bool {
    &&& ensured_to(s, pml4, virt, level) == Some((s1, t))
    &&& in_ram(s1.ram, t)
    &&& not_free(s1.frames, t)
    &&& s1.ram.len() == s.ram.len()
    &&& (s1 == s && table_at(s.ram, pml4, virt, level) == Some(t)) || (forall|i: int|
        0 <= i < 512 ==> #[trigger] entry(s1.ram, t, i) == 0)
}

/// Maps `virt` to the frame `phys` in the address space at `pml4`, linking
/// tables as they are needed.
#[verifier::spinoff_prover]
#[verifier::rlimit(50)]
pub fn map_page_in(mem: &mut Memory, pml4: u64, virt: u64, phys: u64, flags: u64)
    requires
        old(mem).wf(),
        path_ok(old(mem).ram@, pml4, virt),
        path_used(old(mem)@, pml4, virt),
        mapped(old(mem)@, pml4, virt, phys, flags) is Some,
    ensures
        final(mem).wf(),
        mapped(old(mem)@, pml4, virt, phys, flags) == Some(final(mem)@),
        final(mem).ram.len() == old(mem).ram.len(),
        final(mem).cr3 == old(mem).cr3,
        final(mem).nx == old(mem).nx,
        final(mem).pmm.ready() == old(mem).pmm.ready(),
        final(mem).pmm.offset() == old(mem).pmm.offset(),
{
    let idx = indices(virt);
    let mut table: u64 = pml4;
    let ghost s = mem@;
    assert(table_at(s.ram, pml4, virt, 0) == Some(pml4));
    for level in 0..3usize
        invariant
            forall|n: int| 0 <= n < 4 ==> #[trigger] idx@[n] == index(virt, n),
            mem.wf(),
            path_ok(s.ram, pml4, virt),
            path_used(s, pml4, virt),
            ensured_to(s, pml4, virt, 3) is Some,
            so_far(s, mem@, pml4, virt, level as int, table),
            mem.cr3 == old(mem).cr3,
            mem.nx == old(mem).nx,
            mem.pmm.ready() == old(mem).pmm.ready(),
            mem.pmm.offset() == old(mem).pmm.offset(),
    {
        let ghost before = mem@;
        assert(idx@[level as int] == index(virt, level as int));
        proof {
            lemma_ensured_all(s, pml4, virt, level + 1, 3);
            lemma_zero_absent();
        }
        let ghost i = index(virt, level as int);
        table = ensure_table(mem, table, idx[level]);
        proof {
            if present(entry(before.ram, table_before(s, pml4, virt, level as int), i)) {
                assert(table_at(s.ram, pml4, virt, level + 1) == Some(table));
            } else {
                lemma_taken(before);
                let t = table_before(s, pml4, virt, level as int);
                let p = before.frames.take().1->0;
                assert forall|k: int| 0 <= k < 512 implies #[trigger] entry(mem@.ram, p, k) == 0 by {
                    lemma_fresh(before, t, i, k);
                }
            }
        }
    }
    assert(idx@[3] == index(virt, 3));
    write_entry(&mut mem.ram, table, idx[3], phys | PAGE_PRESENT | flags);
}

spec fn table_before(s: Mem, pml4: u64, virt: u64, level: int) -> u64 {
    (ensured_to(s, pml4, virt, level)->0).1
}

pub proof fn lemma_ensured_all(s: Mem, pml4: u64, virt: u64, n: int, k: int)
    requires
        n <= k,
        ensured_to(s, pml4, virt, k) is Some,
    ensures
        ensured_to(s, pml4, virt, n) is Some,
    decreases k - n,
{
    if n < k && k > 0 {
        lemma_ensured_all(s, pml4, virt, n, k - 1);
    }
}

/// A freshly linked table holds nothing, as long as the table that links it
/// is another one.
pub proof fn lemma_fresh(s: Mem, t: u64, i: int, k: int)
    requires
        s.wf(),
        in_ram(s.ram, t),
        0 <= i < 512,
        0 <= k < 512,
        !present(entry(s.ram, t, i)),
        s.frames.take().1 is Some,
        t != s.frames.take().1->0,
    ensures
        entry((ensured(s, t, i)->0).0.ram, s.frames.take().1->0, k) == 0,
{
    lemma_taken(s);
}

/// Maps `virt` to the frame `phys` in the current address space.
pub fn map_page(mem: &mut Memory, virt: u64, phys: u64, flags: u64)
    requires
        old(mem).wf(),
        path_ok(old(mem).ram@, target(old(mem).cr3), virt),
        path_used(old(mem)@, target(old(mem).cr3), virt),
        mapped(old(mem)@, target(old(mem).cr3), virt, phys, flags) is Some,
    ensures
        final(mem).wf(),
        mapped(old(mem)@, target(old(mem).cr3), virt, phys, flags) == Some(final(mem)@),
        final(mem).ram.len() == old(mem).ram.len(),
        final(mem).cr3 == old(mem).cr3,
        final(mem).nx == old(mem).nx,
        final(mem).pmm.ready() == old(mem).pmm.ready(),
        final(mem).pmm.offset() == old(mem).pmm.offset(),
{
    let pml4: u64 = current_cr3(mem);
    map_page_in(mem, pml4, virt, phys, flags);
}

pub proof fn lemma_tree(ram: Seq<u64>, pml4: u64, v: u64, n: int, w: u64, k: int)
    requires
        tree(ram, pml4),
        0 <= n <= 3,
        0 <= k <= 3,
        table_at(ram, pml4, v, n) is Some,
        table_at(ram, pml4, v, n) == table_at(ram, pml4, w, k),
    ensures
        n == k && same_prefix(v, w, n),
{
    reveal(tree);
}

/// Losing tables keeps the rest a tree.
proof fn lemma_tree_shrunk(ram: Seq<u64>, after: Seq<u64>, pml4: u64)
    requires
        tree(ram, pml4),
        forall|w: u64, n: int|
            0 <= n <= 3 && (#[trigger] table_at(after, pml4, w, n)) is Some ==> table_at(after, pml4, w, n)
                == table_at(ram, pml4, w, n),
    ensures
        tree(after, pml4),
{
    reveal(tree);
    assert forall|v: u64, n: int, w: u64, k: int|
        0 <= n <= 3 && 0 <= k <= 3 && (#[trigger] table_at(after, pml4, v, n)) is Some && table_at(
            after,
            pml4,
            v,
            n,
        ) == (#[trigger] table_at(after, pml4, w, k)) implies n == k && same_prefix(v, w, n) by {
        assert(table_at(after, pml4, v, n) == table_at(ram, pml4, v, n));
        assert(table_at(after, pml4, w, k) == table_at(ram, pml4, w, k));
    }
}

pub proof fn lemma_tree_kept(ram: Seq<u64>, after: Seq<u64>, pml4: u64)
    requires
        tables_ok(ram, pml4),
        after.len() == ram.len(),
        forall|w: u64, n: int|
            0 <= n <= 3 ==> #[trigger] table_at(after, pml4, w, n) == table_at(ram, pml4, w, n),
    ensures
        tables_ok(after, pml4),
{
    lemma_tree_shrunk(ram, after, pml4);
    assert forall|w: u64| path_ok(after, pml4, w) by {
        assert(path_ok(ram, pml4, w));
    }
}

/// Writing an entry of a last-level table leaves every table where it is, and
/// every leaf entry but that one what it is.
pub proof fn lemma_leaf_write(ram: Seq<u64>, pml4: u64, virt: u64, e: u64)
    requires
        tables_ok(ram, pml4),
        table_at(ram, pml4, virt, 3) is Some,
    ensures
        ({
            let t = table_at(ram, pml4, virt, 3)->0;
            let after = ram.update(slot(t, index(virt, 3)), e);
            &&& forall|w: u64, n: int|
                0 <= n <= 3 ==> #[trigger] table_at(after, pml4, w, n) == table_at(ram, pml4, w, n)
            &&& tables_ok(after, pml4)
            &&& forall|w: u64|
                #[trigger] leaf_of(after, pml4, w) == if same_page(virt, w) {
                    if present(e) {
                        Some(e)
                    } else {
                        None
                    }
                } else {
                    leaf_of(ram, pml4, w)
                }
        }),
{
    let t = table_at(ram, pml4, virt, 3)->0;
    let at = slot(t, index(virt, 3));
    let after = ram.update(at, e);
    assert(path_ok(ram, pml4, virt));
    assert forall|w: u64, n: int| 0 <= n <= 3 implies #[trigger] table_at(after, pml4, w, n) == table_at(
        ram,
        pml4,
        w,
        n,
    ) by {
        lemma_leaf_write_table(ram, pml4, virt, e, w, n);
    }
    lemma_tree_kept(ram, after, pml4);
    assert forall|w: u64| #[trigger] leaf_of(after, pml4, w) == if same_page(virt, w) {
        if present(e) {
            Some(e)
        } else {
            None
        }
    } else {
        leaf_of(ram, pml4, w)
    } by {
        assert(table_at(after, pml4, w, 3) == table_at(ram, pml4, w, 3));
        assert(path_ok(ram, pml4, w));
        if let Some(u) = table_at(ram, pml4, w, 3) {
            assert(in_ram(ram, u));
            if same_page(virt, w) {
                lemma_same_tables(ram, pml4, virt, w, 3);
            } else if slot(u, index(w, 3)) == at {
                assert(u == t);
                lemma_tree(ram, pml4, virt, 3, w, 3);
            }
        } else if same_page(virt, w) {
            lemma_same_tables(ram, pml4, virt, w, 3);
        }
    }
}

#[verifier::spinoff_prover]
#[verifier::rlimit(40)]
proof fn lemma_leaf_write_table(ram: Seq<u64>, pml4: u64, virt: u64, e: u64, w: u64, n: int)
    requires
        tables_ok(ram, pml4),
        table_at(ram, pml4, virt, 3) is Some,
        0 <= n <= 3,
    ensures
        ({
            let t = table_at(ram, pml4, virt, 3)->0;
            table_at(ram.update(slot(t, index(virt, 3)), e), pml4, w, n) == table_at(ram, pml4, w, n)
        }),
    decreases n,
{
    if n > 0 {
        lemma_leaf_write_table(ram, pml4, virt, e, w, n - 1);
        assert(path_ok(ram, pml4, w));
        assert(path_ok(ram, pml4, virt));
        let t = table_at(ram, pml4, virt, 3)->0;
        if let Some(u) = table_at(ram, pml4, w, n - 1) {
            assert(in_ram(ram, u));
            if slot(u, index(w, n - 1)) == slot(t, index(virt, 3)) {
                assert(u == t);
                lemma_tree(ram, pml4, virt, 3, w, n - 1);
            }
        }
    }
}

/// Addresses that select the same indices reach the same table.
pub(crate) proof fn lemma_same_tables(ram: Seq<u64>, pml4: u64, v: u64, w: u64, n: int)
    requires
        0 <= n <= 3,
        same_prefix(v, w, n),
    ensures
        table_at(ram, pml4, v, n) == table_at(ram, pml4, w, n),
    decreases n,
{
    if n > 0 {
        lemma_same_tables(ram, pml4, v, w, n - 1);
        assert(index(v, n - 1) == index(w, n - 1));
    }
}

proof fn lemma_reflagged_ok(ram: Seq<u64>, pml4: u64, virt: u64, flags: u64)
    requires
        tables_ok(ram, pml4),
    ensures
        tables_ok(reflagged(ram, pml4, virt, flags), pml4),
        reflagged(ram, pml4, virt, flags).len() == ram.len(),
        forall|w: u64, n: int|
            0 <= n <= 3 ==> #[trigger] table_at(reflagged(ram, pml4, virt, flags), pml4, w, n) == table_at(
                ram,
                pml4,
                w,
                n,
            ),
{
    if let Some(e) = leaf_of(ram, pml4, virt) {
        assert(path_ok(ram, pml4, virt));
        lemma_leaf_write(ram, pml4, virt, leaf(target(e), flags));
    }
}

/// Gives every mapped page that `virt..virt + len` touches the flags `flags`
/// in the address space at `pml4`. Pages that are not mapped are left so.
#[verifier::spinoff_prover]
#[verifier::rlimit(50)]
pub fn protect_range_in(mem: &mut Memory, pml4: u64, virt: u64, len: u64, flags: u64)
    requires
        tables_ok(old(mem).ram@, pml4),
        virt + len + 0xFFF <= u64::MAX,
    ensures
        final(mem).ram@ == reflagged_pages(
            old(mem).ram@,
            pml4,
            (virt - virt % 4096) as int,
            pages_touched(virt, len),
            flags,
        ),
        tables_ok(final(mem).ram@, pml4),
        forall|w: u64, n: int|
            0 <= n <= 3 ==> #[trigger] table_at(final(mem).ram@, pml4, w, n) == table_at(
                old(mem).ram@,
                pml4,
                w,
                n,
            ),
        final(mem).ram.len() == old(mem).ram.len(),
        final(mem).pmm == old(mem).pmm,
        final(mem).cr3 == old(mem).cr3,
        final(mem).nx == old(mem).nx,
{
    let start: u64 = virt - virt % 4096;
    let past: u64 = virt + len + 0xFFF;
    let end: u64 = past - past % 4096;
    let ghost ram = mem.ram@;
    let pages: u64 = if end > start {
        (end - start) / 4096
    } else {
        0
    };
    assert(pages == pages_touched(virt, len));
    assert(start + pages * 4096 <= u64::MAX);
    let mut i: u64 = 0;
    while i < pages
        invariant
            i <= pages,
            start + pages * 4096 <= u64::MAX,
            tables_ok(mem.ram@, pml4),
            mem.ram@ == reflagged_pages(ram, pml4, start as int, i as nat, flags),
            mem.ram.len() == ram.len(),
            mem.pmm == old(mem).pmm,
            mem.cr3 == old(mem).cr3,
            mem.nx == old(mem).nx,
            forall|w: u64, n: int|
                0 <= n <= 3 ==> #[trigger] table_at(mem.ram@, pml4, w, n) == table_at(ram, pml4, w, n),
        decreases pages - i,
    {
        let addr: u64 = start + i * 4096;
        assert(path_ok(mem.ram@, pml4, addr));
        proof {
            lemma_reflagged_ok(mem.ram@, pml4, addr, flags);
        }
        if let Some((t, k, e)) = walk(&mem.ram, pml4, addr) {
            let phys: u64 = e & ADDR_MASK;
            write_entry(&mut mem.ram, t, k, phys | PAGE_PRESENT | flags);
        }
        i += 1;
    }
}

/// How many pages `virt..virt + len` touches, its bounds rounded outwards.
pub open spec fn pages_touched(virt: u64, len: u64) -> nat {
    let start = virt - virt % 4096;
    let end = (virt + len + 0xFFF) - (virt + len + 0xFFF) % 4096;
    if end > start {
        ((end - start) / 4096) as nat
    } else {
        0
    }
}

/// Memory with a root table at `pml4` whose lower half is empty and whose
/// upper half links what `source` links.
pub open spec fn with_root(ram: Seq<u64>, pml4: u64, source: u64) -> Seq<u64> {
    let clean = zeroed(ram, pml4);
    Seq::new(
        ram.len(),
        |i: int|
            if slot(pml4, 256) <= i < slot(pml4, 512) {
                entry(clean, source, i - slot(pml4, 0))
            } else {
                clean[i]
            },
    )
}

/// Builds a fresh address space: an empty lower half, and the kernel's upper
/// half shared with the current address space.
#[verifier::spinoff_prover]
#[verifier::rlimit(50)]
pub fn new_address_space(mem: &mut Memory) -> (r: u64)
    requires
        old(mem).wf(),
        in_ram(old(mem).ram@, target(old(mem).cr3)),
        old(mem)@.frames.free() > 0,
    ensures
        final(mem).wf(),
        old(mem)@.frames.take() == (final(mem)@.frames, Some(r)),
        final(mem).ram@ == with_root(old(mem).ram@, r, target(old(mem).cr3)),
        in_ram(final(mem).ram@, r),
        final(mem).cr3 == old(mem).cr3,
        final(mem).nx == old(mem).nx,
        final(mem).pmm.ready() == old(mem).pmm.ready(),
        final(mem).pmm.offset() == old(mem).pmm.offset(),
{
    let ghost s = mem@;
    proof {
        lemma_taken(s);
        law_allocation(s.frames);
    }
    let source: u64 = current_cr3(mem);
    match alloc_frame(&mut mem.pmm) {
        Some(p) => {
            zero_frame(&mut mem.ram, p);
            let ghost clean = mem.ram@;
            for i in 256..512usize
                invariant
                    256 <= i,
                    s.ram.len() == clean.len(),
                    clean == zeroed(s.ram, p),
                    mem.ram@.len() == clean.len(),
                    in_ram(clean, p),
                    in_ram(clean, source),
                    mem.pmm.wf(),
                    mem.pmm@ == s.frames.take().0,
                    mem.cr3 == old(mem).cr3,
                    mem.nx == old(mem).nx,
                    mem.pmm.ready() == old(mem).pmm.ready(),
                    mem.pmm.offset() == old(mem).pmm.offset(),
                    forall|k: int|
                        0 <= k < clean.len() ==> #[trigger] mem.ram@[k] == if slot(p, 256) <= k < slot(
                            p,
                            i as int,
                        ) {
                            entry(clean, source, k - slot(p, 0))
                        } else {
                            clean[k]
                        },
            {
                let e: u64 = read_entry(&mem.ram, source, i);
                proof {
                    let k = slot(source, i as int);
                    assert(0 <= k < clean.len());
                    assert(mem.ram@[k] == clean[k]) by {
                        if slot(p, 256) <= k < slot(p, i as int) {
                            assert(p / 8 % 512 == 0 && source / 8 % 512 == 0);
                            assert(false);
                        }
                    }
                }
                write_entry(&mut mem.ram, p, i, e);
            }
            assert(mem.ram@ =~= with_root(s.ram, p, source));
            p
        },
        None => {
            assert(false);
            0
        },
    }
}

/// Whether frame number `f` belongs to the table at `table`, `depth` levels
/// above the leaves: the table itself, a table below it, or a mapped frame.
/// Only the first `width` entries of the topmost table are looked at.
pub open spec fn owned(ram: Seq<u64>, table: u64, depth: nat, width: int, f: int) -> bool
    decreases depth,
{
    ||| f == table / FRAME_SIZE
    ||| depth > 0 && exists|i: int|
        0 <= i < width && present(#[trigger] entry(ram, table, i)) && owned(
            ram,
            target(entry(ram, table, i)),
            (depth - 1) as nat,
            512,
            f,
        )
}

/// Every table below `table` lies in memory, and it, those tables and the
/// frames that they map are among the `count` frames that the allocator
/// knows, as far as the first `width` entries of the topmost table go. None of
/// the pages is a large one.
pub open spec fn known(ram: Seq<u64>, count: nat, table: u64, depth: nat, width: int) -> bool
    decreases depth,
{
    &&& depth > 0 ==> in_ram(ram, table)
    &&& table / FRAME_SIZE < count
    &&& depth > 0 ==> forall|i: int|
        0 <= i < width && present(#[trigger] entry(ram, table, i)) ==> known(
            ram,
            count,
            target(entry(ram, table, i)),
            (depth - 1) as nat,
            512,
        ) && (depth > 1 ==> !huge(entry(ram, table, i)))
}

spec fn owned_by_entry(ram: Seq<u64>, table: u64, depth: nat, i: int, f: int) -> bool {
    present(entry(ram, table, i)) && owned(ram, target(entry(ram, table, i)), (depth - 1) as nat, 512, f)
}

/// Frees a table, the tables below it and the frames that they map.
#[verifier::spinoff_prover]
#[verifier::rlimit(50)]
fn free_tree(mem: &mut Memory, table: u64, depth: u32, width: usize)
    requires
        old(mem).wf(),
        old(mem).pmm.ready(),
        width <= 512,
        known(old(mem).ram@, old(mem)@.frames.used.len(), table, depth as nat, width as int),
    ensures
        final(mem).wf(),
        final(mem).pmm.ready(),
        final(mem).pmm.offset() == old(mem).pmm.offset(),
        final(mem).ram == old(mem).ram,
        final(mem).cr3 == old(mem).cr3,
        final(mem).nx == old(mem).nx,
        final(mem)@.frames.hint == old(mem)@.frames.hint,
        final(mem)@.frames.used.len() == old(mem)@.frames.used.len(),
        forall|f: int|
            0 <= f < final(mem)@.frames.used.len() ==> (#[trigger] final(mem)@.frames.used[f] <==> old(mem)@.frames.used[f] && !owned(old(mem).ram@, table, depth as nat, width as int, f)),
    decreases depth,
{
    let ghost s = mem@;
    if depth > 0 {
        for i in 0..width
            invariant
                0 < depth,
                width <= 512,
                mem.wf(),
                mem.pmm.ready(),
                mem.pmm.offset() == old(mem).pmm.offset(),
                mem.ram == old(mem).ram,
                mem.ram@ == s.ram,
                mem.cr3 == old(mem).cr3,
                mem.nx == old(mem).nx,
                mem@.frames.hint == s.frames.hint,
                mem@.frames.used.len() == s.frames.used.len(),
                known(s.ram, s.frames.used.len(), table, depth as nat, width as int),
                forall|f: int|
                    0 <= f < s.frames.used.len() ==> (#[trigger] mem@.frames.used[f] <==> s.frames.used[f]
                        && !exists|k: int|
                        0 <= k < i && #[trigger] owned_by_entry(s.ram, table, depth as nat, k, f)),
        {
            let ghost before = mem@.frames.used;
            let e: u64 = read_entry(&mem.ram, table, i);
            if e & PAGE_PRESENT != 0 {
                free_tree(mem, e & ADDR_MASK, depth - 1, 512);
            }
            proof {
                assert forall|f: int| 0 <= f < s.frames.used.len() implies (
                #[trigger] mem@.frames.used[f] <==> s.frames.used[f] && !exists|k: int|
                    0 <= k < i + 1 && #[trigger] owned_by_entry(s.ram, table, depth as nat, k, f)) by {
                    let here = owned_by_entry(s.ram, table, depth as nat, i as int, f);
                    assert(mem@.frames.used[f] <==> before[f] && !here);
                    if before[f] && !here {
                        assert(!exists|k: int|
                            0 <= k < i + 1 && #[trigger] owned_by_entry(s.ram, table, depth as nat, k, f));
                    } else if s.frames.used[f] && !here {
                        let k = choose|k: int|
                            0 <= k < i && #[trigger] owned_by_entry(s.ram, table, depth as nat, k, f);
                        assert(0 <= k < i + 1 && owned_by_entry(s.ram, table, depth as nat, k, f));
                    }
                }
            }
        }
    }
    proof {
        assert forall|f: int| 0 <= f < s.frames.used.len() && f != table / FRAME_SIZE implies (
        #[trigger] mem@.frames.used[f] <==> s.frames.used[f] && !owned(
            s.ram,
            table,
            depth as nat,
            width as int,
            f,
        )) by {
            if depth > 0 {
                if exists|k: int| 0 <= k < width && #[trigger] owned_by_entry(s.ram, table, depth as nat, k, f) {
                    let k = choose|k: int|
                        0 <= k < width && #[trigger] owned_by_entry(s.ram, table, depth as nat, k, f);
                    assert(present(entry(s.ram, table, k)));
                } else if owned(s.ram, table, depth as nat, width as int, f) {
                    let k = choose|k: int|
                        0 <= k < width && present(#[trigger] entry(s.ram, table, k)) && owned(
                            s.ram,
                            target(entry(s.ram, table, k)),
                            (depth - 1) as nat,
                            512,
                            f,
                        );
                    assert(owned_by_entry(s.ram, table, depth as nat, k, f));
                }
            }
        }
    }
    free_frame(&mut mem.pmm, table);
}

/// The allocator's frames after those of a table and of everything below it
/// have been given back.
pub open spec fn without_tree(frames: Frames, ram: Seq<u64>, table: u64, depth: nat, width: int) -> Frames {
    Frames {
        used: Seq::new(
            frames.used.len(),
            |f: int| frames.used[f] && !owned(ram, table, depth, width, f),
        ),
        hint: frames.hint,
    }
}

/// Tears down an address space: forgets its regions and frees every table and
/// every frame of its lower half, and its root. The upper half, which every
/// address space shares, stays.
pub fn destroy_address_space(mem: &mut Memory, regions: &mut Regions, pml4: u64)
    requires
        old(mem).wf(),
        old(mem).pmm.ready(),
        old(regions).wf(),
        known(old(mem).ram@, old(mem)@.frames.used.len(), pml4, 4, 256),
    ensures
        final(mem).wf(),
        final(mem).pmm.ready(),
        final(mem).pmm.offset() == old(mem).pmm.offset(),
        final(mem).ram == old(mem).ram,
        final(mem).cr3 == old(mem).cr3,
        final(mem).nx == old(mem).nx,
        final(mem)@.frames == without_tree(old(mem)@.frames, old(mem).ram@, pml4, 4, 256),
        final(regions).wf(),
        final(regions)@ == without_space(old(regions)@, pml4),
{
    destroy(regions, pml4);
    free_tree(mem, pml4, 4, 256);
    assert(mem@.frames.used =~= without_tree(old(mem)@.frames, old(mem).ram@, pml4, 4, 256).used);
}

/// What trying to map a page finds on its way down: a page too large to
/// split, too little memory for a missing table, or the table at the end.
/// The tables that were linked on the way are listed with the entry and the
/// table that links each.
pub ghost enum Descent {
    Huge(Mem),
    Full(Mem, Seq<(u64, int, u64)>),
    At(Mem, u64, Seq<(u64, int, u64)>),
}

pub open spec fn descent(s: Mem, pml4: u64, virt: u64, level: int) -> Descent
    decreases level,
{
    if level <= 0 {
        Descent::At(s, pml4, Seq::empty())
    } else {
        match descent(s, pml4, virt, level - 1) {
            Descent::At(s1, t, made) => {
                let i = index(virt, level - 1);
                let e = entry(s1.ram, t, i);
                if present(e) && huge(e) {
                    Descent::Huge(s1)
                } else {
                    match ensured(s1, t, i) {
                        None => Descent::Full(s1, made),
                        Some((s2, u)) => Descent::At(
                            s2,
                            u,
                            if present(e) {
                                made
                            } else {
                                made.push((t, i, u))
                            },
                        ),
                    }
                }
            },
            other => other,
        }
    }
}

/// Memory after unlinking and freeing the listed tables, the last one first.
pub open spec fn unlinked(s: Mem, made: Seq<(u64, int, u64)>) -> Mem
    decreases made.len(),
{
    if made.len() == 0 {
        s
    } else {
        let (t, i, p) = made.last();
        unlinked(
            Mem { ram: s.ram.update(slot(t, i), 0), frames: s.frames.release(p) },
            made.drop_last(),
        )
    }
}

/// Memory after trying to map `virt` to `phys`, and whether it was mapped.
pub open spec fn tried(s: Mem, pml4: u64, virt: u64, phys: u64, flags: u64) -> (Mem, bool) {
    match descent(s, pml4, virt, 3) {
        Descent::Huge(s1) => (s1, false),
        Descent::Full(s1, made) => (unlinked(s1, made), false),
        Descent::At(s1, t, _) => if present(entry(s1.ram, t, index(virt, 3))) {
            (s1, false)
        } else {
            (Mem { ram: s1.ram.update(slot(t, index(virt, 3)), leaf(phys, flags)), ..s1 }, true)
        },
    }
}

spec fn listed(made: Seq<(u64, usize, u64)>) -> Seq<(u64, int, u64)> {
    made.map_values(|m: (u64, usize, u64)| (m.0, m.1 as int, m.2))
}

/// Like `so_far`, for an attempt that keeps track of what it linked.
spec fn tried_so_far(
    s: Mem,
    s1: Mem,
    pml4: u64,
    virt: u64,
    level: int,
    t: u64,
    made: Seq<(u64, usize, u64)>,
) -> bool {
    &&& descent(s, pml4, virt, level) == Descent::At(s1, t, listed(made))
    &&& in_ram(s1.ram, t)
    &&& not_free(s1.frames, t)
    &&& s1.ram.len() == s.ram.len()
    &&& s1.frames.used.len() == s.frames.used.len()
    &&& (s1 == s && table_at(s.ram, pml4, virt, level) == Some(t)) || (forall|i: int|
        0 <= i < 512 ==> #[trigger] entry(s1.ram, t, i) == 0)
    &&& forall|k: int|
        0 <= k < made.len() ==> in_ram(s.ram, (#[trigger] made[k]).0) && made[k].1 < 512 && made[k].2
            / FRAME_SIZE < s.frames.used.len()
}

proof fn lemma_descent_stops(s: Mem, pml4: u64, virt: u64, n: int, k: int)
    requires
        n <= k,
        !(descent(s, pml4, virt, n) is At),
    ensures
        descent(s, pml4, virt, k) == descent(s, pml4, virt, n),
    decreases k - n,
{
    if n < k && k > 0 {
        lemma_descent_stops(s, pml4, virt, n, k - 1);
    }
}

/// Tries to map `virt` to the frame `phys`. Refuses, leaving no new table
/// behind, if a page too large to split is in the way, if `virt` is mapped
/// already, or if a table is missing and there is no frame for it.
#[verifier::spinoff_prover]
#[verifier::rlimit(50)]
pub fn try_map_page_in(mem: &mut Memory, pml4: u64, virt: u64, phys: u64, flags: u64) -> (r: bool)
    requires
        old(mem).wf(),
        path_ok(old(mem).ram@, pml4, virt),
        path_used(old(mem)@, pml4, virt),
    ensures
        final(mem).wf(),
        (final(mem)@, r) == tried(old(mem)@, pml4, virt, phys, flags),
        final(mem).ram.len() == old(mem).ram.len(),
        final(mem)@.frames.used.len() == old(mem)@.frames.used.len(),
        final(mem).cr3 == old(mem).cr3,
        final(mem).nx == old(mem).nx,
        final(mem).pmm.ready() == old(mem).pmm.ready(),
        final(mem).pmm.offset() == old(mem).pmm.offset(),
{
    let idx = indices(virt);
    let mut table: u64 = pml4;
    let mut made: Vec<(u64, usize, u64)> = Vec::new();
    let ghost s = mem@;
    assert(table_at(s.ram, pml4, virt, 0) == Some(pml4));
    assert(listed(made@) =~= Seq::empty());
    for level in 0..3usize
        invariant
            forall|n: int| 0 <= n < 4 ==> #[trigger] idx@[n] == index(virt, n),
            s == old(mem)@,
            mem.wf(),
            path_ok(s.ram, pml4, virt),
            path_used(s, pml4, virt),
            tried_so_far(s, mem@, pml4, virt, level as int, table, made@),
            mem.cr3 == old(mem).cr3,
            mem.nx == old(mem).nx,
            mem.pmm.ready() == old(mem).pmm.ready(),
            mem.pmm.offset() == old(mem).pmm.offset(),
    {
        let ghost before = mem@;
        assert(idx@[level as int] == index(virt, level as int));
        let i: usize = idx[level];
        proof {
            lemma_zero_absent();
            lemma_taken(before);
        }
        let e: u64 = read_entry(&mem.ram, table, i);
        if e & PAGE_PRESENT != 0 {
            if e & PAGE_HUGE != 0 {
                proof {
                    lemma_descent_stops(s, pml4, virt, level + 1, 3);
                }
                return false;
            }
            table = e & ADDR_MASK;
            assert(table_at(s.ram, pml4, virt, level + 1) == Some(table));
        } else {
            match alloc_frame(&mut mem.pmm) {
                Some(next) => {
                    zero_frame(&mut mem.ram, next);
                    write_entry(&mut mem.ram, table, i, next | PAGE_PRESENT | PAGE_WRITABLE | PAGE_USER);
                    let ghost was = made@;
                    made.push((table, i, next));
                    assert(listed(made@) =~= listed(was).push((table, i as int, next)));
                    assert forall|k: int| 0 <= k < 512 implies #[trigger] entry(mem@.ram, next, k) == 0 by {
                        lemma_fresh(before, table, i as int, k);
                    }
                    table = next;
                },
                None => {
                    assert(mem@ == before);
                    proof {
                        lemma_descent_stops(s, pml4, virt, level + 1, 3);
                    }
                    undo_links(mem, made);
                    return false;
                },
            }
        }
    }
    assert(idx@[3] == index(virt, 3));
    let e: u64 = read_entry(&mem.ram, table, idx[3]);
    if e & PAGE_PRESENT != 0 {
        return false;
    }
    write_entry(&mut mem.ram, table, idx[3], phys | PAGE_PRESENT | flags);
    true
}

/// Unlinks and frees the listed tables, the last one first.
fn undo_links(mem: &mut Memory, made: Vec<(u64, usize, u64)>)
    requires
        old(mem).wf(),
        forall|k: int|
            0 <= k < made@.len() ==> in_ram(old(mem).ram@, (#[trigger] made@[k]).0) && made@[k].1 < 512
                && made@[k].2 / FRAME_SIZE < old(mem)@.frames.used.len(),
    ensures
        final(mem).wf(),
        final(mem)@ == unlinked(old(mem)@, listed(made@)),
        final(mem).ram.len() == old(mem).ram.len(),
        final(mem)@.frames.used.len() == old(mem)@.frames.used.len(),
        final(mem).cr3 == old(mem).cr3,
        final(mem).nx == old(mem).nx,
        final(mem).pmm.ready() == old(mem).pmm.ready(),
        final(mem).pmm.offset() == old(mem).pmm.offset(),
{
    let mut made = made;
    let ghost s = mem@;
    let ghost all = made@;
    while made.len() > 0
        invariant
            mem.wf(),
            mem.ram.len() == s.ram.len(),
            mem@.frames.used.len() == s.frames.used.len(),
            mem.cr3 == old(mem).cr3,
            mem.nx == old(mem).nx,
            mem.pmm.ready() == old(mem).pmm.ready(),
            mem.pmm.offset() == old(mem).pmm.offset(),
            forall|k: int|
                0 <= k < made@.len() ==> in_ram(s.ram, (#[trigger] made@[k]).0) && made@[k].1 < 512
                    && made@[k].2 / FRAME_SIZE < s.frames.used.len(),
            unlinked(mem@, listed(made@)) == unlinked(s, listed(all)),
        decreases made@.len(),
    {
        let ghost was = made@;
        match made.pop() {
            Some((parent, i, frame)) => {
                assert(was[was.len() - 1] == (parent, i, frame));
                assert(listed(was).drop_last() =~= listed(made@));
                assert(listed(was).last() == (parent, i as int, frame));
                write_entry(&mut mem.ram, parent, i, 0);
                free_frame(&mut mem.pmm, frame);
            },
            None => {},
        }
    }
}

/// What linking a fresh table at `level + 1` on the way to `virt` does to the
/// tables that any address reaches.
pub open spec fn linked_table(s: Mem, pml4: u64, virt: u64, level: int, p: u64, w: u64, n: int) -> Option<u64> {
    if n > level && same_prefix(virt, w, level + 1) {
        if n == level + 1 {
            Some(p)
        } else {
            None
        }
    } else {
        table_at(s.ram, pml4, w, n)
    }
}

#[verifier::spinoff_prover]
#[verifier::rlimit(40)]
pub proof fn lemma_link_table(s: Mem, pml4: u64, virt: u64, level: int, w: u64, n: int)
    requires
        s.wf(),
        tables_ok(s.ram, pml4),
        tables_used(s, pml4),
        0 <= level <= 2,
        0 <= n <= 3,
        table_at(s.ram, pml4, virt, level) is Some,
        !present(entry(s.ram, table_at(s.ram, pml4, virt, level)->0, index(virt, level))),
        s.frames.take().1 is Some,
    ensures
        ({
            let t = table_at(s.ram, pml4, virt, level)->0;
            let p = s.frames.take().1->0;
            let s1 = (ensured(s, t, index(virt, level))->0).0;
            table_at(s1.ram, pml4, w, n) == linked_table(s, pml4, virt, level, p, w, n)
        }),
    decreases n,
{
    let t = table_at(s.ram, pml4, virt, level)->0;
    let p = s.frames.take().1->0;
    let s1 = (ensured(s, t, index(virt, level))->0).0;
    lemma_taken(s);
    lemma_zero_absent();
    assert(0u64 & ADDR_MASK == 0) by (bit_vector);
    lemma_entries(p, 0, 0);
    if n > 0 {
        lemma_link_table(s, pml4, virt, level, w, n - 1);
        assert(path_ok(s.ram, pml4, w) && path_ok(s.ram, pml4, virt));
        assert(path_used(s, pml4, w) && path_used(s, pml4, virt));
        assert(in_ram(s.ram, t) && not_free(s.frames, t));
        if n - 1 > level && same_prefix(virt, w, level + 1) {
            if n - 1 == level + 1 {
                lemma_fresh(s, t, index(virt, level), index(w, n - 1));
            }
        } else {
            if let Some(u) = table_at(s.ram, pml4, w, n - 1) {
                assert(in_ram(s.ram, u) && not_free(s.frames, u));
                assert(u != p);
                if slot(u, index(w, n - 1)) == slot(t, index(virt, level)) {
                    assert(u == t);
                    lemma_tree(s.ram, pml4, virt, level, w, n - 1);
                } else {
                    lemma_zeroed(s.ram, p, u, index(w, n - 1));
                }
            }
            if n == level + 1 && same_prefix(virt, w, level + 1) {
                lemma_same_tables(s.ram, pml4, virt, w, level);
            }
        }
    }
}

/// Linking a fresh table changes no page's mapping.
#[verifier::spinoff_prover]
#[verifier::rlimit(40)]
proof fn lemma_link_leaf(s: Mem, pml4: u64, virt: u64, level: int, w: u64)
    requires
        s.wf(),
        tables_ok(s.ram, pml4),
        tables_used(s, pml4),
        0 <= level <= 2,
        table_at(s.ram, pml4, virt, level) is Some,
        !present(entry(s.ram, table_at(s.ram, pml4, virt, level)->0, index(virt, level))),
        s.frames.take().1 is Some,
    ensures
        ({
            let t = table_at(s.ram, pml4, virt, level)->0;
            let p = s.frames.take().1->0;
            let s1 = (ensured(s, t, index(virt, level))->0).0;
            leaf_of(s1.ram, pml4, w) == leaf_of(s.ram, pml4, w)
        }),
{
    let t = table_at(s.ram, pml4, virt, level)->0;
    let p = s.frames.take().1->0;
    let i = index(virt, level);
    lemma_taken(s);
    lemma_zero_absent();
    lemma_link_table(s, pml4, virt, level, w, 3);
    assert(path_ok(s.ram, pml4, virt) && path_used(s, pml4, virt));
    assert(path_ok(s.ram, pml4, w) && path_used(s, pml4, w));
    if same_prefix(virt, w, level + 1) {
        lemma_same_tables(s.ram, pml4, virt, w, level);
        assert(table_at(s.ram, pml4, w, level + 1) is None);
        lemma_missing(s.ram, pml4, w, level + 1, 3);
        if level == 2 {
            lemma_fresh(s, t, i, index(w, 3));
        }
    } else if let Some(u) = table_at(s.ram, pml4, w, 3) {
        assert(u != p);
        if u == t {
            lemma_tree(s.ram, pml4, virt, level, w, 3);
        }
        lemma_zeroed(s.ram, p, u, index(w, 3));
    }
}

/// Linking a fresh table keeps the tables a tree.
#[verifier::spinoff_prover]
#[verifier::rlimit(40)]
proof fn lemma_link_tree(s: Mem, pml4: u64, virt: u64, level: int)
    requires
        s.wf(),
        tables_ok(s.ram, pml4),
        tables_used(s, pml4),
        0 <= level <= 2,
        table_at(s.ram, pml4, virt, level) is Some,
        !present(entry(s.ram, table_at(s.ram, pml4, virt, level)->0, index(virt, level))),
        s.frames.take().1 is Some,
    ensures
        ({
            let t = table_at(s.ram, pml4, virt, level)->0;
            let p = s.frames.take().1->0;
            let s1 = (ensured(s, t, index(virt, level))->0).0;
            tree(s1.ram, pml4)
        }),
{
    let t = table_at(s.ram, pml4, virt, level)->0;
    let p = s.frames.take().1->0;
    let s1 = (ensured(s, t, index(virt, level))->0).0;
    lemma_taken(s);
    assert(tree(s1.ram, pml4)) by {
        reveal(tree);
        assert forall|v: u64, n: int, w: u64, k: int|
            0 <= n <= 3 && 0 <= k <= 3 && (#[trigger] table_at(s1.ram, pml4, v, n)) is Some && table_at(
                s1.ram,
                pml4,
                v,
                n,
            ) == (#[trigger] table_at(s1.ram, pml4, w, k)) implies n == k && same_prefix(v, w, n) by {
            lemma_link_table(s, pml4, virt, level, v, n);
            lemma_link_table(s, pml4, virt, level, w, k);
            assert(path_used(s, pml4, v) && path_used(s, pml4, w));
        }
    }
}

/// Linking a fresh table keeps the tables a tree of used frames and changes
/// no page's mapping.
pub proof fn lemma_link(s: Mem, pml4: u64, virt: u64, level: int)
    requires
        s.wf(),
        tables_ok(s.ram, pml4),
        tables_used(s, pml4),
        0 <= level <= 2,
        table_at(s.ram, pml4, virt, level) is Some,
        !present(entry(s.ram, table_at(s.ram, pml4, virt, level)->0, index(virt, level))),
        s.frames.take().1 is Some,
    ensures
        ({
            let t = table_at(s.ram, pml4, virt, level)->0;
            let p = s.frames.take().1->0;
            let s1 = (ensured(s, t, index(virt, level))->0).0;
            &&& s1.wf()
            &&& tables_ok(s1.ram, pml4)
            &&& tables_used(s1, pml4)
            &&& table_at(s1.ram, pml4, virt, level + 1) == Some(p)
            &&& forall|w: u64| #[trigger] leaf_of(s1.ram, pml4, w) == leaf_of(s.ram, pml4, w)
        }),
{
    let t = table_at(s.ram, pml4, virt, level)->0;
    let p = s.frames.take().1->0;
    let i = index(virt, level);
    let s1 = (ensured(s, t, i)->0).0;
    lemma_taken(s);
    assert(path_ok(s.ram, pml4, virt) && path_used(s, pml4, virt));
    assert forall|w: u64| path_ok(s1.ram, pml4, w) by {
        assert(path_ok(s.ram, pml4, w));
        assert forall|n: int| 0 <= n <= 3 implies (#[trigger] table_at(s1.ram, pml4, w, n) matches Some(
            x,
        ) ==> in_ram(s1.ram, x)) by {
            lemma_link_table(s, pml4, virt, level, w, n);
        }
    }
    assert forall|w: u64| path_used(s1, pml4, w) by {
        assert(path_used(s, pml4, w));
        assert forall|n: int| 0 <= n <= 3 implies (#[trigger] table_at(s1.ram, pml4, w, n) matches Some(
            x,
        ) ==> not_free(s1.frames, x)) by {
            lemma_link_table(s, pml4, virt, level, w, n);
        }
    }
    lemma_link_tree(s, pml4, virt, level);
    lemma_link_table(s, pml4, virt, level, virt, level + 1);
    assert forall|w: u64| #[trigger] leaf_of(s1.ram, pml4, w) == leaf_of(s.ram, pml4, w) by {
        lemma_link_leaf(s, pml4, virt, level, w);
    }
}

/// Making sure of the tables on the way to a page changes no page's mapping.
pub proof fn lemma_ensured_to(s: Mem, pml4: u64, virt: u64, level: int)
    requires
        s.wf(),
        tables_ok(s.ram, pml4),
        tables_used(s, pml4),
        0 <= level <= 3,
        ensured_to(s, pml4, virt, level) is Some,
    ensures
        ({
            let (s1, t) = ensured_to(s, pml4, virt, level)->0;
            &&& s1.wf()
            &&& s1.ram.len() == s.ram.len()
            &&& tables_ok(s1.ram, pml4)
            &&& tables_used(s1, pml4)
            &&& table_at(s1.ram, pml4, virt, level) == Some(t)
            &&& forall|w: u64| #[trigger] leaf_of(s1.ram, pml4, w) == leaf_of(s.ram, pml4, w)
        }),
    decreases level,
{
    if level > 0 {
        lemma_ensured_all(s, pml4, virt, level - 1, level);
        lemma_ensured_to(s, pml4, virt, level - 1);
        let (s0, t) = ensured_to(s, pml4, virt, level - 1)->0;
        assert(path_ok(s0.ram, pml4, virt));
        if !present(entry(s0.ram, t, index(virt, level - 1))) {
            lemma_link(s0, pml4, virt, level - 1);
            lemma_taken(s0);
        }
    }
}

/// After mapping a page, that page and only that page has the new mapping;
/// every other page keeps the mapping that it had, and the tables are still a
/// tree of used frames.
pub proof fn law_map(s: Mem, pml4: u64, virt: u64, phys: u64, flags: u64)
    requires
        s.wf(),
        tables_ok(s.ram, pml4),
        tables_used(s, pml4),
        mapped(s, pml4, virt, phys, flags) is Some,
    ensures
        ({
            let s1 = mapped(s, pml4, virt, phys, flags)->0;
            &&& s1.wf()
            &&& tables_ok(s1.ram, pml4)
            &&& tables_used(s1, pml4)
            &&& forall|w: u64|
                #[trigger] leaf_of(s1.ram, pml4, w) == if same_page(virt, w) {
                    Some(leaf(phys, flags))
                } else {
                    leaf_of(s.ram, pml4, w)
                }
        }),
{
    lemma_ensured_to(s, pml4, virt, 3);
    let (s1, t) = ensured_to(s, pml4, virt, 3)->0;
    assert(present(leaf(phys, flags))) by (bit_vector);
    assert(path_ok(s1.ram, pml4, virt));
    lemma_leaf_write(s1.ram, pml4, virt, leaf(phys, flags));
    let s2 = mapped(s, pml4, virt, phys, flags)->0;
    assert forall|w: u64| path_used(s2, pml4, w) by {
        assert(path_used(s1, pml4, w));
    }
}

/// Translating a page that was just mapped gives the frame it was mapped to.
pub proof fn law_map_then_translate(s: Mem, pml4: u64, virt: u64, phys: u64, flags: u64)
    requires
        s.wf(),
        tables_ok(s.ram, pml4),
        tables_used(s, pml4),
        phys % 4096 == 0,
        phys < 0x10_0000_0000_0000,
        flags & ADDR_MASK == 0,
        mapped(s, pml4, virt, phys, flags) is Some,
    ensures
        translation((mapped(s, pml4, virt, phys, flags)->0).ram, pml4, virt) == Some(phys),
        forall|w: u64|
            !same_page(virt, w) ==> #[trigger] translation((mapped(s, pml4, virt, phys, flags)->0).ram, pml4, w)
                == translation(s.ram, pml4, w),
{
    law_map(s, pml4, virt, phys, flags);
    lemma_aligned(phys);
    lemma_entries(phys, flags, 0);
    let s1 = mapped(s, pml4, virt, phys, flags)->0;
    assert(leaf_of(s1.ram, pml4, virt) == Some(leaf(phys, flags)));
    assert forall|w: u64| !same_page(virt, w) implies #[trigger] translation(s1.ram, pml4, w) == translation(
        s.ram,
        pml4,
        w,
    ) by {
        assert(leaf_of(s1.ram, pml4, w) == leaf_of(s.ram, pml4, w));
    }
}

/// After removing a page's mapping, that page has none and every other page
/// keeps the mapping that it had.
pub proof fn law_unmap(ram: Seq<u64>, pml4: u64, virt: u64)
    requires
        tables_ok(ram, pml4),
    ensures
        tables_ok(unmapped(ram, pml4, virt), pml4),
        forall|w: u64|
            #[trigger] leaf_of(unmapped(ram, pml4, virt), pml4, w) == if same_page(virt, w) {
                None
            } else {
                leaf_of(ram, pml4, w)
            },
{
    lemma_zero_absent();
    if leaf_of(ram, pml4, virt) is Some {
        lemma_leaf_write(ram, pml4, virt, 0);
    } else {
        assert forall|w: u64| #[trigger] leaf_of(ram, pml4, w) == if same_page(virt, w) {
            None
        } else {
            leaf_of(ram, pml4, w)
        } by {
            if same_page(virt, w) {
                lemma_same_tables(ram, pml4, virt, w, 3);
            }
        }
    }
}

/// Mapping a page that had no mapping and removing it again leaves every
/// page's mapping what it was.
pub proof fn law_unmap_undoes_map(s: Mem, pml4: u64, virt: u64, phys: u64, flags: u64)
    requires
        s.wf(),
        tables_ok(s.ram, pml4),
        tables_used(s, pml4),
        leaf_of(s.ram, pml4, virt) is None,
        mapped(s, pml4, virt, phys, flags) is Some,
    ensures
        forall|w: u64|
            #[trigger] leaf_of(
                unmapped((mapped(s, pml4, virt, phys, flags)->0).ram, pml4, virt),
                pml4,
                w,
            ) == leaf_of(s.ram, pml4, w),
{
    law_map(s, pml4, virt, phys, flags);
    let s1 = mapped(s, pml4, virt, phys, flags)->0;
    law_unmap(s1.ram, pml4, virt);
    assert forall|w: u64| #[trigger] leaf_of(unmapped(s1.ram, pml4, virt), pml4, w) == leaf_of(
        s.ram,
        pml4,
        w,
    ) by {
        assert(leaf_of(s1.ram, pml4, w) == if same_page(virt, w) {
            Some(leaf(phys, flags))
        } else {
            leaf_of(s.ram, pml4, w)
        });
        if same_page(virt, w) {
            lemma_same_tables(s.ram, pml4, virt, w, 3);
        }
    }
}

/// A new address space maps nothing in its lower half, and everywhere in its
/// upper half what the address space it was made from maps there.
pub proof fn law_new_address_space(s: Mem, source: u64)
    requires
        s.wf(),
        tables_ok(s.ram, source),
        tables_used(s, source),
        s.frames.take().1 is Some,
    ensures
        ({
            let p = s.frames.take().1->0;
            let ram = with_root(s.ram, p, source);
            &&& forall|w: u64| index(w, 0) < 256 ==> #[trigger] leaf_of(ram, p, w) is None
            &&& forall|w: u64| index(w, 0) >= 256 ==> #[trigger] leaf_of(ram, p, w) == leaf_of(s.ram, source, w)
            &&& forall|w: u64| #[trigger] leaf_of(ram, source, w) == leaf_of(s.ram, source, w)
        }),
{
    let p = s.frames.take().1->0;
    let ram = with_root(s.ram, p, source);
    lemma_taken(s);
    lemma_zero_absent();
    assert forall|w: u64| index(w, 0) < 256 implies #[trigger] leaf_of(ram, p, w) is None by {
        assert(entry(ram, p, index(w, 0)) == 0);
        assert(table_at(ram, p, w, 0) == Some(p));
        assert(table_at(ram, p, w, 1) is None);
        lemma_missing(ram, p, w, 1, 3);
    }
    assert forall|w: u64| index(w, 0) >= 256 implies #[trigger] leaf_of(ram, p, w) == leaf_of(
        s.ram,
        source,
        w,
    ) by {
        lemma_new_space_table(s, source, w, 1);
        lemma_new_space_table(s, source, w, 3);
    }
    assert forall|w: u64| #[trigger] leaf_of(ram, source, w) == leaf_of(s.ram, source, w) by {
        lemma_new_space_source(s, source, w, 3);
    }
}

/// An entry of a table in use is not touched by building a new root.
proof fn lemma_root_elsewhere(s: Mem, source: u64, t: u64, i: int)
    requires
        s.wf(),
        s.frames.take().1 is Some,
        in_ram(s.ram, t),
        not_free(s.frames, t),
        0 <= i < 512,
    ensures
        entry(with_root(s.ram, s.frames.take().1->0, source), t, i) == entry(s.ram, t, i),
{
    lemma_taken(s);
    let p = s.frames.take().1->0;
    assert(t != p);
    lemma_zeroed(s.ram, p, t, i);
}

pub proof fn lemma_new_space_source(s: Mem, source: u64, w: u64, n: int)
    requires
        s.wf(),
        tables_ok(s.ram, source),
        tables_used(s, source),
        s.frames.take().1 is Some,
        0 <= n <= 3,
    ensures
        ({
            let ram = with_root(s.ram, s.frames.take().1->0, source);
            &&& table_at(ram, source, w, n) == table_at(s.ram, source, w, n)
            &&& n == 3 ==> leaf_of(ram, source, w) == leaf_of(s.ram, source, w)
        }),
    decreases n,
{
    if n > 0 {
        lemma_new_space_source(s, source, w, n - 1);
    }
    assert(path_ok(s.ram, source, w) && path_used(s, source, w));
    if n > 0 {
        if let Some(t) = table_at(s.ram, source, w, n - 1) {
            lemma_root_elsewhere(s, source, t, index(w, n - 1));
        }
    }
    if n == 3 {
        if let Some(t) = table_at(s.ram, source, w, 3) {
            lemma_root_elsewhere(s, source, t, index(w, 3));
        }
    }
}

pub proof fn lemma_new_space_table(s: Mem, source: u64, w: u64, n: int)
    requires
        s.wf(),
        tables_ok(s.ram, source),
        tables_used(s, source),
        s.frames.take().1 is Some,
        index(w, 0) >= 256,
        1 <= n <= 3,
    ensures
        ({
            let p = s.frames.take().1->0;
            let ram = with_root(s.ram, p, source);
            &&& table_at(ram, p, w, n) == table_at(s.ram, source, w, n)
            &&& n == 3 ==> leaf_of(ram, p, w) == leaf_of(s.ram, source, w)
        }),
    decreases n,
{
    lemma_taken(s);
    let p = s.frames.take().1->0;
    let ram = with_root(s.ram, p, source);
    assert(path_ok(s.ram, source, w) && path_used(s, source, w));
    if n == 1 {
        assert(table_at(s.ram, source, w, 0) == Some(source));
        assert(table_at(ram, p, w, 0) == Some(p));
        lemma_zeroed(s.ram, p, source, index(w, 0));
        assert(entry(ram, p, index(w, 0)) == entry(s.ram, source, index(w, 0)));
    } else {
        lemma_new_space_table(s, source, w, n - 1);
        if let Some(t) = table_at(s.ram, source, w, n - 1) {
            lemma_root_elsewhere(s, source, t, index(w, n - 1));
        }
    }
    if n == 3 {
        if let Some(t) = table_at(s.ram, source, w, 3) {
            lemma_root_elsewhere(s, source, t, index(w, 3));
        }
    }
}

/// No table on the way to `virt` in the address space `a` is a table of the
/// address space `b`.
pub open spec fn apart(ram: Seq<u64>, a: u64, virt: u64, b: u64) -> bool {
    forall|n: int, w: u64, k: int|
        0 <= n <= 3 && 0 <= k <= 3 && (#[trigger] table_at(ram, a, virt, n)) is Some ==> table_at(
            ram,
            a,
            virt,
            n,
        ) != #[trigger] table_at(ram, b, w, k)
}

/// What `b` looks like is unaffected by writes to a table that is not one of
/// its own.
pub(crate) proof fn lemma_other_table(s: Mem, ram: Seq<u64>, b: u64, t: u64, w: u64, n: int)
    requires
        ram.len() == s.ram.len(),
        forall|v: u64| path_ok(s.ram, b, v),
        tables_used(s, b),
        forall|v: u64, k: int| 0 <= k <= 3 ==> #[trigger] table_at(s.ram, b, v, k) != Some(t),
        forall|u: u64, i: int|
            in_ram(s.ram, u) && not_free(s.frames, u) && u != t && 0 <= i < 512 ==> #[trigger] entry(ram, u, i)
                == entry(s.ram, u, i),
        0 <= n <= 3,
    ensures
        table_at(ram, b, w, n) == table_at(s.ram, b, w, n),
        n == 3 ==> leaf_of(ram, b, w) == leaf_of(s.ram, b, w),
    decreases n,
{
    if n > 0 {
        lemma_other_table(s, ram, b, t, w, n - 1);
    }
    assert(path_ok(s.ram, b, w) && path_used(s, b, w));
    if n > 0 {
        if let Some(u) = table_at(s.ram, b, w, n - 1) {
            assert(entry(ram, u, index(w, n - 1)) == entry(s.ram, u, index(w, n - 1)));
        }
    }
    if n == 3 {
        if let Some(u) = table_at(s.ram, b, w, 3) {
            assert(entry(ram, u, index(w, 3)) == entry(s.ram, u, index(w, 3)));
        }
    }
}

spec fn untouched(s: Mem, s1: Mem, b: u64) -> bool {
    &&& s1.ram.len() == s.ram.len()
    &&& forall|w: u64, n: int|
        0 <= n <= 3 ==> #[trigger] table_at(s1.ram, b, w, n) == table_at(s.ram, b, w, n)
    &&& forall|w: u64| #[trigger] leaf_of(s1.ram, b, w) == leaf_of(s.ram, b, w)
}

#[verifier::spinoff_prover]
#[verifier::rlimit(40)]
proof fn lemma_isolated(s: Mem, a: u64, virt: u64, b: u64, level: int)
    requires
        s.wf(),
        path_ok(s.ram, a, virt),
        path_used(s, a, virt),
        forall|v: u64| path_ok(s.ram, b, v),
        tables_used(s, b),
        apart(s.ram, a, virt, b),
        0 <= level <= 3,
        ensured_to(s, a, virt, level) is Some,
    ensures
        ({
            let (s1, t) = ensured_to(s, a, virt, level)->0;
            &&& s1.wf()
            &&& untouched(s, s1, b)
            &&& tables_used(s1, b)
            &&& in_ram(s1.ram, t) && not_free(s1.frames, t)
            &&& forall|w: u64, k: int| 0 <= k <= 3 ==> #[trigger] table_at(s1.ram, b, w, k) != Some(t)
            &&& (s1 == s && table_at(s.ram, a, virt, level) == Some(t)) || (forall|i: int|
                0 <= i < 512 ==> #[trigger] entry(s1.ram, t, i) == 0)
        }),
    decreases level,
{
    if level == 0 {
        assert(table_at(s.ram, a, virt, 0) == Some(a));
    } else {
        lemma_ensured_all(s, a, virt, level - 1, level);
        lemma_isolated(s, a, virt, b, level - 1);
        let (s0, t) = ensured_to(s, a, virt, level - 1)->0;
        let i = index(virt, level - 1);
        let (s1, u) = ensured_to(s, a, virt, level)->0;
        lemma_zero_absent();
        if present(entry(s0.ram, t, i)) {
            assert(table_at(s.ram, a, virt, level) == Some(u));
        } else {
            lemma_taken(s0);
            assert forall|v: u64| path_ok(s0.ram, b, v) by {
                assert(path_ok(s.ram, b, v));
            }
            assert forall|x: u64, k: int|
                in_ram(s0.ram, x) && not_free(s0.frames, x) && x != t && 0 <= k < 512 implies
                #[trigger] entry(s1.ram, x, k) == entry(s0.ram, x, k) by {
                lemma_zeroed(s0.ram, u, x, k);
            }
            assert forall|w: u64, n: int| 0 <= n <= 3 implies #[trigger] table_at(s1.ram, b, w, n)
                == table_at(s.ram, b, w, n) by {
                lemma_other_table(s0, s1.ram, b, t, w, n);
                assert(table_at(s0.ram, b, w, n) == table_at(s.ram, b, w, n));
            }
            assert forall|w: u64| #[trigger] leaf_of(s1.ram, b, w) == leaf_of(s.ram, b, w) by {
                lemma_other_table(s0, s1.ram, b, t, w, 3);
                assert(leaf_of(s0.ram, b, w) == leaf_of(s.ram, b, w));
            }
            assert forall|w: u64| path_used(s1, b, w) by {
                assert(path_used(s, b, w));
                assert(path_used(s0, b, w));
                assert forall|n: int| 0 <= n <= 3 implies (#[trigger] table_at(s1.ram, b, w, n) matches Some(
                    x,
                ) ==> not_free(s1.frames, x)) by {
                    assert(table_at(s1.ram, b, w, n) == table_at(s.ram, b, w, n));
                    assert(table_at(s0.ram, b, w, n) == table_at(s.ram, b, w, n));
                }
            }
            assert forall|w: u64, k: int| 0 <= k <= 3 implies #[trigger] table_at(s1.ram, b, w, k) != Some(
                u,
            ) by {
                assert(path_used(s0, b, w));
                assert(table_at(s1.ram, b, w, k) == table_at(s.ram, b, w, k));
                assert(table_at(s0.ram, b, w, k) == table_at(s.ram, b, w, k));
            }
            assert forall|k: int| 0 <= k < 512 implies #[trigger] entry(s1.ram, u, k) == 0 by {
                lemma_fresh(s0, t, i, k);
            }
        }
    }
}

/// Address spaces are isolated: mapping a page in one changes no mapping of
/// another, as long as the way to that page runs through none of the other's
/// tables.
pub proof fn law_isolation(s: Mem, a: u64, virt: u64, phys: u64, flags: u64, b: u64)
    requires
        s.wf(),
        path_ok(s.ram, a, virt),
        path_used(s, a, virt),
        forall|v: u64| path_ok(s.ram, b, v),
        tables_used(s, b),
        apart(s.ram, a, virt, b),
        mapped(s, a, virt, phys, flags) is Some,
    ensures
        forall|w: u64|
            #[trigger] leaf_of((mapped(s, a, virt, phys, flags)->0).ram, b, w) == leaf_of(s.ram, b, w),
{
    lemma_isolated(s, a, virt, b, 3);
    let (s1, t) = ensured_to(s, a, virt, 3)->0;
    let s2 = mapped(s, a, virt, phys, flags)->0;
    assert forall|v: u64| path_ok(s1.ram, b, v) by {
        assert(path_ok(s.ram, b, v));
    }
    assert forall|w: u64| #[trigger] leaf_of(s2.ram, b, w) == leaf_of(s.ram, b, w) by {
        lemma_other_table(s1, s2.ram, b, t, w, 3);
        assert(leaf_of(s1.ram, b, w) == leaf_of(s.ram, b, w));
    }
}

/// Memory with the table `p` unlinked from entry `i` of `t`, and freed.
pub open spec fn without_link(s: Mem, t: u64, i: int, p: u64) -> Mem {
    Mem { ram: s.ram.update(slot(t, i), 0), frames: s.frames.release(p) }
}

spec fn all_zero(ram: Seq<u64>, t: u64) -> bool {
    forall|k: int| 0 <= k < 512 ==> #[trigger] entry(ram, t, k) == 0
}

spec fn unlinked_table(s: Mem, pml4: u64, virt: u64, level: int, w: u64, n: int) -> Option<u64> {
    if n > level && same_prefix(virt, w, level + 1) {
        None
    } else {
        table_at(s.ram, pml4, w, n)
    }
}

#[verifier::spinoff_prover]
#[verifier::rlimit(40)]
proof fn lemma_unlink_table(s: Mem, pml4: u64, virt: u64, level: int, p: u64, w: u64, n: int)
    requires
        s.wf(),
        tables_ok(s.ram, pml4),
        0 <= level <= 2,
        0 <= n <= 3,
        table_at(s.ram, pml4, virt, level) is Some,
    ensures
        ({
            let t = table_at(s.ram, pml4, virt, level)->0;
            let s1 = without_link(s, t, index(virt, level), p);
            table_at(s1.ram, pml4, w, n) == unlinked_table(s, pml4, virt, level, w, n)
        }),
    decreases n,
{
    let t = table_at(s.ram, pml4, virt, level)->0;
    lemma_zero_absent();
    if n > 0 {
        lemma_unlink_table(s, pml4, virt, level, p, w, n - 1);
        assert(path_ok(s.ram, pml4, w) && path_ok(s.ram, pml4, virt));
        if n - 1 > level && same_prefix(virt, w, level + 1) {
        } else if let Some(u) = table_at(s.ram, pml4, w, n - 1) {
            assert(in_ram(s.ram, u));
            if slot(u, index(w, n - 1)) == slot(t, index(virt, level)) {
                assert(u == t);
                lemma_tree(s.ram, pml4, virt, level, w, n - 1);
            } else if n == level + 1 && same_prefix(virt, w, level + 1) {
                lemma_same_tables(s.ram, pml4, virt, w, level);
            }
        }
    }
}

/// Unlinking and freeing an empty table keeps the rest in use.
#[verifier::spinoff_prover]
#[verifier::rlimit(40)]
proof fn lemma_unlink_used(s: Mem, pml4: u64, virt: u64, level: int, p: u64, w: u64, n: int)
    requires
        s.wf(),
        tables_ok(s.ram, pml4),
        tables_used(s, pml4),
        0 <= level <= 2,
        table_at(s.ram, pml4, virt, level) is Some,
        table_at(s.ram, pml4, virt, level + 1) == Some(p),
        all_zero(s.ram, p),
        p / FRAME_SIZE < s.frames.used.len(),
        0 <= n <= 3,
    ensures
        ({
            let t = table_at(s.ram, pml4, virt, level)->0;
            let s1 = without_link(s, t, index(virt, level), p);
            table_at(s1.ram, pml4, w, n) matches Some(x) ==> not_free(s1.frames, x)
        }),
{
    let t = table_at(s.ram, pml4, virt, level)->0;
    let s1 = without_link(s, t, index(virt, level), p);
    lemma_unlink_table(s, pml4, virt, level, p, w, n);
    if let Some(x) = table_at(s1.ram, pml4, w, n) {
        assert(path_ok(s.ram, pml4, virt) && path_used(s, pml4, virt));
        assert(path_ok(s.ram, pml4, w) && path_used(s, pml4, w));
        assert(table_at(s.ram, pml4, w, n) == Some(x));
        if x / FRAME_SIZE == p / FRAME_SIZE {
            assert(in_ram(s.ram, x) && in_ram(s.ram, p));
            assert(x == p);
            lemma_tree(s.ram, pml4, virt, level + 1, w, n);
        }
    }
}

/// Unlinking and freeing an empty table changes no page's mapping.
#[verifier::spinoff_prover]
#[verifier::rlimit(40)]
proof fn lemma_unlink_leaf(s: Mem, pml4: u64, virt: u64, level: int, p: u64, w: u64)
    requires
        s.wf(),
        tables_ok(s.ram, pml4),
        tables_used(s, pml4),
        0 <= level <= 2,
        table_at(s.ram, pml4, virt, level) is Some,
        table_at(s.ram, pml4, virt, level + 1) == Some(p),
        all_zero(s.ram, p),
    ensures
        ({
            let t = table_at(s.ram, pml4, virt, level)->0;
            let s1 = without_link(s, t, index(virt, level), p);
            leaf_of(s1.ram, pml4, w) == leaf_of(s.ram, pml4, w)
        }),
{
    let t = table_at(s.ram, pml4, virt, level)->0;
    lemma_zero_absent();
    lemma_unlink_table(s, pml4, virt, level, p, w, 3);
    assert(path_ok(s.ram, pml4, virt));
    assert(path_ok(s.ram, pml4, w));
    if same_prefix(virt, w, level + 1) {
        lemma_same_tables(s.ram, pml4, virt, w, level + 1);
        assert(entry(s.ram, p, index(w, level + 1)) == 0);
        if level + 2 <= 3 {
            assert(table_at(s.ram, pml4, w, level + 2) is None);
            lemma_missing(s.ram, pml4, w, level + 2, 3);
        }
    } else if let Some(u) = table_at(s.ram, pml4, w, 3) {
        if u == t {
            lemma_tree(s.ram, pml4, virt, level, w, 3);
        }
    }
}

/// Every table after is a table before.
#[verifier::opaque]
spec fn shrunk(ram: Seq<u64>, after: Seq<u64>, pml4: u64) -> bool {
    forall|w: u64, n: int|
        0 <= n <= 3 && (#[trigger] table_at(after, pml4, w, n)) is Some ==> table_at(after, pml4, w, n) == table_at(
            ram,
            pml4,
            w,
            n,
        )
}

proof fn lemma_shrunk_chain(a: Seq<u64>, b: Seq<u64>, c: Seq<u64>, pml4: u64)
    requires
        shrunk(a, b, pml4),
        shrunk(b, c, pml4),
    ensures
        shrunk(a, c, pml4),
{
    reveal(shrunk);
    assert forall|w: u64, n: int| 0 <= n <= 3 && (#[trigger] table_at(c, pml4, w, n)) is Some implies table_at(
        c,
        pml4,
        w,
        n,
    ) == table_at(a, pml4, w, n) by {
        assert(table_at(c, pml4, w, n) == table_at(b, pml4, w, n));
    }
}

proof fn lemma_unlink(s: Mem, pml4: u64, virt: u64, level: int, p: u64)
    requires
        s.wf(),
        tables_ok(s.ram, pml4),
        tables_used(s, pml4),
        0 <= level <= 2,
        table_at(s.ram, pml4, virt, level) is Some,
        table_at(s.ram, pml4, virt, level + 1) == Some(p),
        all_zero(s.ram, p),
        p / FRAME_SIZE < s.frames.used.len(),
    ensures
        ({
            let t = table_at(s.ram, pml4, virt, level)->0;
            let s1 = without_link(s, t, index(virt, level), p);
            &&& s1.wf()
            &&& tables_ok(s1.ram, pml4)
            &&& tables_used(s1, pml4)
            &&& forall|n: int|
                0 <= n <= level ==> #[trigger] table_at(s1.ram, pml4, virt, n) == table_at(s.ram, pml4, virt, n)
            &&& forall|w: u64| #[trigger] leaf_of(s1.ram, pml4, w) == leaf_of(s.ram, pml4, w)
            &&& shrunk(s.ram, s1.ram, pml4)
        }),
{
    reveal(shrunk);
    let t = table_at(s.ram, pml4, virt, level)->0;
    let i = index(virt, level);
    let s1 = without_link(s, t, i, p);
    assert(path_ok(s.ram, pml4, virt) && path_used(s, pml4, virt));
    assert forall|w: u64| path_ok(s1.ram, pml4, w) by {
        assert(path_ok(s.ram, pml4, w));
        assert forall|n: int| 0 <= n <= 3 implies (#[trigger] table_at(s1.ram, pml4, w, n) matches Some(
            x,
        ) ==> in_ram(s1.ram, x)) by {
            lemma_unlink_table(s, pml4, virt, level, p, w, n);
        }
    }
    assert forall|w: u64| path_used(s1, pml4, w) by {
        assert forall|n: int| 0 <= n <= 3 implies (#[trigger] table_at(s1.ram, pml4, w, n) matches Some(
            x,
        ) ==> not_free(s1.frames, x)) by {
            lemma_unlink_used(s, pml4, virt, level, p, w, n);
        }
    }
    assert forall|w: u64| #[trigger] leaf_of(s1.ram, pml4, w) == leaf_of(s.ram, pml4, w) by {
        lemma_unlink_leaf(s, pml4, virt, level, p, w);
    }
    assert forall|w: u64, n: int|
        0 <= n <= 3 && (#[trigger] table_at(s1.ram, pml4, w, n)) is Some implies table_at(s1.ram, pml4, w, n)
        == table_at(s.ram, pml4, w, n) by {
        lemma_unlink_table(s, pml4, virt, level, p, w, n);
    }
    lemma_tree_shrunk(s.ram, s1.ram, pml4);
    assert forall|n: int| 0 <= n <= level implies #[trigger] table_at(s1.ram, pml4, virt, n) == table_at(
        s.ram,
        pml4,
        virt,
        n,
    ) by {
        lemma_unlink_table(s, pml4, virt, level, p, virt, n);
    }
}

/// The listed tables hang below each other from level `base` on the way to
/// `virt`, and each links nothing but the next.
spec fn chained(s: Mem, pml4: u64, virt: u64, base: int, made: Seq<(u64, int, u64)>) -> bool {
    &&& 0 <= base && base + made.len() <= 3
    &&& forall|k: int|
        0 <= k < made.len() ==> table_at(s.ram, pml4, virt, base + k) == Some((#[trigger] made[k]).0)
            && made[k].1 == index(virt, base + k) && table_at(s.ram, pml4, virt, base + k + 1) == Some(
            made[k].2,
        ) && made[k].2 / FRAME_SIZE < s.frames.used.len()
    &&& forall|k: int, j: int|
        0 <= k < made.len() && 0 <= j < 512 && (k == made.len() - 1 || j != index(virt, base + k + 1))
            ==> #[trigger] entry(s.ram, (#[trigger] made[k]).2, j) == 0
}

proof fn lemma_unlinked(s: Mem, pml4: u64, virt: u64, base: int, made: Seq<(u64, int, u64)>)
    requires
        s.wf(),
        tables_ok(s.ram, pml4),
        tables_used(s, pml4),
        chained(s, pml4, virt, base, made),
    ensures
        ({
            let s1 = unlinked(s, made);
            &&& s1.wf()
            &&& tables_ok(s1.ram, pml4)
            &&& tables_used(s1, pml4)
            &&& forall|w: u64| #[trigger] leaf_of(s1.ram, pml4, w) == leaf_of(s.ram, pml4, w)
            &&& s1.frames.used.len() == s.frames.used.len()
            &&& forall|f: int|
                0 <= f < s.frames.used.len() ==> (#[trigger] s1.frames.used[f] <==> s.frames.used[f]
                    && !exists|k: int| 0 <= k < made.len() && (#[trigger] made[k]).2 / FRAME_SIZE == f)
            &&& shrunk(s.ram, s1.ram, pml4)
        }),
    decreases made.len(),
{
    if made.len() == 0 {
        reveal(shrunk);
    }
    if made.len() > 0 {
        let last = made.len() - 1;
        let (t, i, p) = made[last];
        let level = base + last;
        assert(all_zero(s.ram, p));
        lemma_unlink(s, pml4, virt, level, p);
        let s1 = without_link(s, t, i, p);
        let rest = made.drop_last();
        assert(path_ok(s.ram, pml4, virt) && path_used(s, pml4, virt));
        assert(chained(s1, pml4, virt, base, rest)) by {
            assert forall|k: int| 0 <= k < rest.len() implies table_at(s1.ram, pml4, virt, base + k) == Some(
                (#[trigger] rest[k]).0,
            ) && rest[k].1 == index(virt, base + k) && table_at(s1.ram, pml4, virt, base + k + 1) == Some(
                rest[k].2,
            ) && rest[k].2 / FRAME_SIZE < s1.frames.used.len() by {
                assert(rest[k] == made[k]);
                assert(table_at(s1.ram, pml4, virt, base + k) == table_at(s.ram, pml4, virt, base + k));
                assert(table_at(s1.ram, pml4, virt, base + k + 1) == table_at(s.ram, pml4, virt, base + k + 1));
            }
            assert forall|k: int, j: int|
                0 <= k < rest.len() && 0 <= j < 512 && (k == rest.len() - 1 || j != index(virt, base + k + 1))
                implies #[trigger] entry(s1.ram, (#[trigger] rest[k]).2, j) == 0 by {
                assert(rest[k] == made[k]);
                let u = made[k].2;
                assert(table_at(s.ram, pml4, virt, base + k + 1) == Some(u));
                assert(in_ram(s.ram, u) && in_ram(s.ram, t));
                if u == t {
                    lemma_tree(s.ram, pml4, virt, base + k + 1, virt, level);
                    if j != index(virt, base + k + 1) {
                        assert(entry(s.ram, u, j) == 0);
                    }
                } else {
                    if k == rest.len() - 1 {
                        assert(made[last].0 == t);
                        assert(false);
                    }
                    assert(entry(s.ram, u, j) == 0);
                }
            }
        }
        lemma_unlinked(s1, pml4, virt, base, rest);
        let s2 = unlinked(s, made);
        lemma_shrunk_chain(s.ram, s1.ram, s2.ram, pml4);
        assert forall|w: u64| #[trigger] leaf_of(s2.ram, pml4, w) == leaf_of(s.ram, pml4, w) by {
            assert(leaf_of(s1.ram, pml4, w) == leaf_of(s.ram, pml4, w));
        }
        assert forall|f: int| 0 <= f < s.frames.used.len() implies (#[trigger] s2.frames.used[f]
            <==> s.frames.used[f] && !exists|k: int|
            0 <= k < made.len() && (#[trigger] made[k]).2 / FRAME_SIZE == f) by {
            if f == p / FRAME_SIZE {
                assert(made[last].2 / FRAME_SIZE == f);
            } else if exists|k: int| 0 <= k < made.len() && (#[trigger] made[k]).2 / FRAME_SIZE == f {
                let k = choose|k: int| 0 <= k < made.len() && (#[trigger] made[k]).2 / FRAME_SIZE == f;
                assert(rest[k] == made[k]);
            } else if exists|k: int| 0 <= k < rest.len() && (#[trigger] rest[k]).2 / FRAME_SIZE == f {
                let k = choose|k: int| 0 <= k < rest.len() && (#[trigger] rest[k]).2 / FRAME_SIZE == f;
                assert(rest[k] == made[k]);
            }
        }
    }
}

/// Every table after is a table before, or was a free frame.
#[verifier::opaque]
pub open spec fn only_fresh(s: Mem, ram: Seq<u64>, pml4: u64) -> bool {
    forall|w: u64, n: int|
        0 <= n <= 3 ==> (#[trigger] table_at(ram, pml4, w, n) matches Some(t) ==> table_at(s.ram, pml4, w, n) == Some(
            t,
        ) || !not_free(s.frames, t))
}

/// What holds of memory part of the way down.
spec fn descended(s: Mem, s1: Mem, pml4: u64, virt: u64, level: int, made: Seq<(u64, int, u64)>) -> bool {
    &&& s1.wf()
    &&& tables_ok(s1.ram, pml4)
    &&& tables_used(s1, pml4)
    &&& forall|w: u64| #[trigger] leaf_of(s1.ram, pml4, w) == leaf_of(s.ram, pml4, w)
    &&& chained(s1, pml4, virt, level - made.len(), made)
    &&& made.len() == 0 ==> s1 == s
    &&& s1.frames.used.len() == s.frames.used.len()
    &&& forall|f: int|
        0 <= f < s.frames.used.len() ==> (#[trigger] s1.frames.used[f] <==> s.frames.used[f] || exists|k: int|
            0 <= k < made.len() && (#[trigger] made[k]).2 / FRAME_SIZE == f)
    &&& forall|k: int| 0 <= k < made.len() ==> !not_free(s.frames, (#[trigger] made[k]).2)
    &&& only_fresh(s, s1.ram, pml4)
}

/// One more table linked on the way down.
proof fn lemma_descend_link(s: Mem, s0: Mem, pml4: u64, virt: u64, level: int, made: Seq<(u64, int, u64)>)
    requires
        s.wf(),
        0 <= level <= 2,
        table_at(s0.ram, pml4, virt, level) is Some,
        descended(s, s0, pml4, virt, level, made),
        !present(entry(s0.ram, table_at(s0.ram, pml4, virt, level)->0, index(virt, level))),
        s0.frames.take().1 is Some,
    ensures
        ({
            let t = table_at(s0.ram, pml4, virt, level)->0;
            let p = s0.frames.take().1->0;
            let s1 = (ensured(s0, t, index(virt, level))->0).0;
            &&& table_at(s1.ram, pml4, virt, level + 1) == Some(p)
            &&& descended(s, s1, pml4, virt, level + 1, made.push((t, index(virt, level), p)))
        }),
{
    let t = table_at(s0.ram, pml4, virt, level)->0;
    let p = s0.frames.take().1->0;
    let i = index(virt, level);
    let base = level - made.len();
    let s1 = (ensured(s0, t, i)->0).0;
    assert(path_ok(s0.ram, pml4, virt) && path_used(s0, pml4, virt));
    lemma_link(s0, pml4, virt, level);
    lemma_taken(s0);
    let more = made.push((t, i, p));
    assert(chained(s1, pml4, virt, base, more)) by {
        assert forall|k: int| 0 <= k < more.len() implies table_at(s1.ram, pml4, virt, base + k)
            == Some((#[trigger] more[k]).0) && more[k].1 == index(virt, base + k) && table_at(
            s1.ram,
            pml4,
            virt,
            base + k + 1,
        ) == Some(more[k].2) && more[k].2 / FRAME_SIZE < s1.frames.used.len() by {
            lemma_link_table(s0, pml4, virt, level, virt, base + k);
            lemma_link_table(s0, pml4, virt, level, virt, base + k + 1);
            if k < made.len() {
                assert(more[k] == made[k]);
            }
        }
        assert forall|k: int, j: int|
            0 <= k < more.len() && 0 <= j < 512 && (k == more.len() - 1 || j != index(
                virt,
                base + k + 1,
            )) implies #[trigger] entry(s1.ram, (#[trigger] more[k]).2, j) == 0 by {
            if k == more.len() - 1 {
                lemma_fresh(s0, t, i, j);
            } else {
                assert(more[k] == made[k]);
                let u = made[k].2;
                assert(table_at(s0.ram, pml4, virt, base + k + 1) == Some(u));
                assert(in_ram(s0.ram, u) && not_free(s0.frames, u));
                lemma_zeroed(s0.ram, p, u, j);
                assert(entry(s0.ram, u, j) == 0);
                if u == t {
                    lemma_tree(s0.ram, pml4, virt, base + k + 1, virt, level);
                }
            }
        }
    }
    assert forall|f: int| 0 <= f < s.frames.used.len() implies (#[trigger] s1.frames.used[f]
        <==> s.frames.used[f] || exists|k: int|
        0 <= k < more.len() && (#[trigger] more[k]).2 / FRAME_SIZE == f) by {
        if f == p / FRAME_SIZE {
            assert(more[made.len() as int].2 / FRAME_SIZE == f);
        } else if s0.frames.used[f] && !s.frames.used[f] {
            let k = choose|k: int| 0 <= k < made.len() && (#[trigger] made[k]).2 / FRAME_SIZE == f;
            assert(more[k] == made[k]);
        } else if exists|k: int| 0 <= k < more.len() && (#[trigger] more[k]).2 / FRAME_SIZE == f {
            let k = choose|k: int| 0 <= k < more.len() && (#[trigger] more[k]).2 / FRAME_SIZE == f;
            assert(more[k] == made[k]);
        }
    }
    assert forall|k: int| 0 <= k < more.len() implies !not_free(s.frames, (#[trigger] more[k]).2) by {
        if k < made.len() {
            assert(more[k] == made[k]);
        } else {
            assert(!s0.frames.used[(p / FRAME_SIZE) as int]);
        }
    }
    assert forall|w: u64| #[trigger] leaf_of(s1.ram, pml4, w) == leaf_of(s.ram, pml4, w) by {
        assert(leaf_of(s0.ram, pml4, w) == leaf_of(s.ram, pml4, w));
    }
    assert(only_fresh(s, s1.ram, pml4)) by {
        reveal(only_fresh);
        assert forall|w: u64, n: int| 0 <= n <= 3 implies (#[trigger] table_at(s1.ram, pml4, w, n) matches Some(x)
            ==> table_at(s.ram, pml4, w, n) == Some(x) || !not_free(s.frames, x)) by {
            lemma_link_table(s0, pml4, virt, level, w, n);
            assert(table_at(s0.ram, pml4, w, n) matches Some(x) ==> table_at(s.ram, pml4, w, n) == Some(x)
                || !not_free(s.frames, x));
            assert(!not_free(s0.frames, p));
        }
    }
    assert(descended(s, s1, pml4, virt, level + 1, more));
}

/// What trying to map a page has done by the time it stops or gets to `level`.
spec fn descent_ok(s: Mem, pml4: u64, virt: u64, level: int, d: Descent) -> bool {
    match d {
        Descent::At(s1, t, made) => table_at(s1.ram, pml4, virt, level) == Some(t) && descended(
            s,
            s1,
            pml4,
            virt,
            level,
            made,
        ),
        Descent::Full(s1, made) => {
            ||| descended(s, s1, pml4, virt, 0, made)
            ||| descended(s, s1, pml4, virt, 1, made)
            ||| descended(s, s1, pml4, virt, 2, made)
        },
        Descent::Huge(s1) => s1 == s,
    }
}

proof fn lemma_descent(s: Mem, pml4: u64, virt: u64, level: int)
    requires
        s.wf(),
        tables_ok(s.ram, pml4),
        tables_used(s, pml4),
        0 <= level <= 3,
    ensures
        descent_ok(s, pml4, virt, level, descent(s, pml4, virt, level)),
    decreases level,
{
    if level > 0 {
        lemma_descent(s, pml4, virt, level - 1);
        let d = descent(s, pml4, virt, level);
        match descent(s, pml4, virt, level - 1) {
            Descent::At(s0, t, made) => {
                let i = index(virt, level - 1);
                let e = entry(s0.ram, t, i);
                lemma_zero_absent();
                if made.len() > 0 {
                    let last = made[made.len() - 1];
                    assert(last.2 == t);
                    assert(entry(s0.ram, last.2, i) == 0);
                }
                if present(e) {
                    assert(made.len() == 0);
                    assert(s0 == s);
                    if !huge(e) {
                        assert(chained(s0, pml4, virt, level - made.len(), made));
                        assert(d == Descent::At(s0, target(e), made));
                        assert(descended(s, s0, pml4, virt, level, made));
                        assert(table_at(s0.ram, pml4, virt, level) == Some(target(e)));
                        assert(descent_ok(s, pml4, virt, level, d));
                    } else {
                        assert(d == Descent::Huge(s0));
                        assert(descent_ok(s, pml4, virt, level, d));
                    }
                } else if s0.frames.take().1 is Some {
                    lemma_descend_link(s, s0, pml4, virt, level - 1, made);
                    let p = s0.frames.take().1->0;
                    let s1 = (ensured(s0, t, i)->0).0;
                    assert(ensured(s0, t, i) == Some((s1, p)));
                    assert(d == Descent::At(s1, p, made.push((t, i, p))));
                } else {
                    assert(d == Descent::Full(s0, made));
                    assert(descended(s, s0, pml4, virt, level - 1, made));
                }
            },
            other => {
                assert(d == other);
            },
        }
    } else {
        assert(chained(s, pml4, virt, 0, Seq::empty()));
        assert(only_fresh(s, s.ram, pml4)) by {
            reveal(only_fresh);
        }
        assert(descended(s, s, pml4, virt, 0, Seq::empty()));
    }
}

/// An attempt to map a page that is refused leaves every page's mapping and
/// every frame's state as they were. One that succeeds gives that page, which
/// had no mapping, its new one, and leaves every other page's as it was.
pub proof fn law_try_map(s: Mem, pml4: u64, virt: u64, phys: u64, flags: u64)
    requires
        s.wf(),
        tables_ok(s.ram, pml4),
        tables_used(s, pml4),
    ensures
        ({
            let (s1, ok) = tried(s, pml4, virt, phys, flags);
            &&& s1.wf()
            &&& tables_ok(s1.ram, pml4)
            &&& tables_used(s1, pml4)
            &&& !ok ==> s1.frames.used == s.frames.used && forall|w: u64|
                #[trigger] leaf_of(s1.ram, pml4, w) == leaf_of(s.ram, pml4, w)
            &&& ok ==> leaf_of(s.ram, pml4, virt) is None && forall|w: u64|
                #[trigger] leaf_of(s1.ram, pml4, w) == if same_page(virt, w) {
                    Some(leaf(phys, flags))
                } else {
                    leaf_of(s.ram, pml4, w)
                }
        }),
{
    lemma_descent(s, pml4, virt, 3);
    lemma_zero_absent();
    assert(present(leaf(phys, flags))) by (bit_vector);
    let (s2, ok) = tried(s, pml4, virt, phys, flags);
    match descent(s, pml4, virt, 3) {
        Descent::Huge(s1) => {},
        Descent::Full(s1, made) => {
            let n: int = if descended(s, s1, pml4, virt, 0, made) {
                0
            } else if descended(s, s1, pml4, virt, 1, made) {
                1
            } else {
                2
            };
            lemma_unlinked(s1, pml4, virt, n - made.len(), made);
            assert forall|f: int| 0 <= f < s.frames.used.len() implies #[trigger] s2.frames.used[f]
                == s.frames.used[f] by {
                if exists|k: int| 0 <= k < made.len() && (#[trigger] made[k]).2 / FRAME_SIZE == f {
                    let k = choose|k: int| 0 <= k < made.len() && (#[trigger] made[k]).2 / FRAME_SIZE == f;
                    assert(!not_free(s.frames, made[k].2));
                }
            }
            assert(s2.frames.used =~= s.frames.used);
            assert forall|w: u64| #[trigger] leaf_of(s2.ram, pml4, w) == leaf_of(s.ram, pml4, w) by {
                assert(leaf_of(s1.ram, pml4, w) == leaf_of(s.ram, pml4, w));
            }
        },
        Descent::At(s1, t, made) => {
            let e = entry(s1.ram, t, index(virt, 3));
            assert(path_ok(s1.ram, pml4, virt));
            if present(e) {
                if made.len() > 0 {
                    assert(made[made.len() - 1].2 == t);
                    assert(entry(s1.ram, made[made.len() - 1].2, index(virt, 3)) == 0);
                }
            } else {
                assert(leaf_of(s1.ram, pml4, virt) == leaf_of(s.ram, pml4, virt));
                lemma_leaf_write(s1.ram, pml4, virt, leaf(phys, flags));
                assert forall|w: u64| path_used(s2, pml4, w) by {
                    assert(path_used(s1, pml4, w));
                }
                assert forall|w: u64| #[trigger] leaf_of(s2.ram, pml4, w) == if same_page(virt, w) {
                    Some(leaf(phys, flags))
                } else {
                    leaf_of(s.ram, pml4, w)
                } by {
                    assert(leaf_of(s1.ram, pml4, w) == leaf_of(s.ram, pml4, w));
                }
            }
        },
    }
}

/// Whatever comes of an attempt to map a page, every table after it is a table
/// before, or was a free frame.
pub proof fn lemma_tried_tables(s: Mem, pml4: u64, virt: u64, phys: u64, flags: u64)
    requires
        s.wf(),
        tables_ok(s.ram, pml4),
        tables_used(s, pml4),
    ensures
        only_fresh(s, tried(s, pml4, virt, phys, flags).0.ram, pml4),
{
    lemma_descent(s, pml4, virt, 3);
    let (s2, ok) = tried(s, pml4, virt, phys, flags);
    reveal(only_fresh);
    match descent(s, pml4, virt, 3) {
        Descent::Huge(s1) => {},
        Descent::Full(s1, made) => {
            let n: int = if descended(s, s1, pml4, virt, 0, made) {
                0
            } else if descended(s, s1, pml4, virt, 1, made) {
                1
            } else {
                2
            };
            lemma_unlinked(s1, pml4, virt, n - made.len(), made);
            reveal(shrunk);
            assert forall|w: u64, k: int| 0 <= k <= 3 implies (#[trigger] table_at(s2.ram, pml4, w, k) matches Some(t)
                ==> table_at(s.ram, pml4, w, k) == Some(t) || !not_free(s.frames, t)) by {
                assert(table_at(s2.ram, pml4, w, k) is Some ==> table_at(s2.ram, pml4, w, k) == table_at(
                    s1.ram,
                    pml4,
                    w,
                    k,
                ));
            }
        },
        Descent::At(s1, t, made) => {
            if ok {
                lemma_leaf_write(s1.ram, pml4, virt, leaf(phys, flags));
                assert forall|w: u64, k: int| 0 <= k <= 3 implies (#[trigger] table_at(
                    s2.ram,
                    pml4,
                    w,
                    k,
                ) matches Some(x) ==> table_at(s.ram, pml4, w, k) == Some(x) || !not_free(s.frames, x)) by {
                    assert(table_at(s2.ram, pml4, w, k) == table_at(s1.ram, pml4, w, k));
                }
            }
        },
    }
}

/// An attempt to map a page that succeeds does what mapping it does.
pub proof fn law_tried_is_mapped(s: Mem, pml4: u64, virt: u64, phys: u64, flags: u64)
    requires
        tried(s, pml4, virt, phys, flags).1,
    ensures
        mapped(s, pml4, virt, phys, flags) == Some(tried(s, pml4, virt, phys, flags).0),
{
    lemma_descent_ensures(s, pml4, virt, 3);
}

proof fn lemma_descent_ensures(s: Mem, pml4: u64, virt: u64, level: int)
    requires
        0 <= level,
    ensures
        descent(s, pml4, virt, level) matches Descent::At(s1, t, _) ==> ensured_to(s, pml4, virt, level) == Some(
            (s1, t),
        ),
    decreases level,
{
    if level > 0 {
        lemma_descent_ensures(s, pml4, virt, level - 1);
    }
}

} // verus!
