//! Room in an address space: whether a page can be mapped, and frames filled
//! with data before they are.
use crate::paging::{
    entry, ensured, ensured_to, huge, not_free, indices, leaf_of, lemma_fresh, lemma_missing, lemma_taken,
    lemma_tree_kept, lemma_zero_absent, mapped, path_ok, path_used, present, read_entry, table_at, tables_ok,
    tables_used, Mem, Memory, ADDR_MASK, PAGE_HUGE, PAGE_PRESENT,
};
use crate::pmm::{law_allocation, stats, Frames, FRAME_SIZE};
use crate::ram::{in_ram, lemma_with_bytes_words, with_bytes};
use crate::vaddr::{index, lemma_index};
use vstd::prelude::*;

verus! {

broadcast use lemma_index;

/// How many of the tables on the way to `virt` are missing.
pub open spec fn tables_missing(ram: Seq<u64>, pml4: u64, virt: u64) -> nat {
    if table_at(ram, pml4, virt, 1) is None {
        3
    } else if table_at(ram, pml4, virt, 2) is None {
        2
    } else if table_at(ram, pml4, virt, 3) is None {
        1
    } else {
        0
    }
}

/// Whether a large page is mapped above `level` where `virt` lies.
pub open spec fn large_page_to(ram: Seq<u64>, pml4: u64, virt: u64, level: int) -> bool
    decreases level,
{
    level > 0 && (large_page_to(ram, pml4, virt, level - 1) || (table_at(ram, pml4, virt, level - 1) matches Some(t)
        && present(entry(ram, t, index(virt, level - 1))) && huge(entry(ram, t, index(virt, level - 1)))))
}

/// Whether a large page is mapped where `virt` lies.
pub open spec fn large_page(ram: Seq<u64>, pml4: u64, virt: u64) -> bool {
    large_page_to(ram, pml4, virt, 3)
}

/// Once a table is missing on the way down, every further one takes a frame.
proof fn lemma_ensured_takes(s: Mem, pml4: u64, virt: u64, level: int)
    requires
        s.wf(),
        path_ok(s.ram, pml4, virt),
        path_used(s, pml4, virt),
        0 <= level <= 3,
    ensures
        table_at(s.ram, pml4, virt, level) matches Some(t) ==> ensured_to(s, pml4, virt, level) == Some((s, t)),
        ensured_to(s, pml4, virt, level) is None <==> large_page_to(s.ram, pml4, virt, level) || (table_at(
            s.ram,
            pml4,
            virt,
            level,
        ) is None && s.frames.free() < tables_missing_to(s.ram, pml4, virt, level)),
        ensured_to(s, pml4, virt, level) matches Some((s1, t)) ==> {
            &&& s1.wf()
            &&& s1.ram.len() == s.ram.len()
            &&& in_ram(s1.ram, t)
            &&& table_at(s.ram, pml4, virt, level) is None ==> {
                &&& s1.frames.free() + tables_missing_to(s.ram, pml4, virt, level) == s.frames.free()
                &&& forall|k: int| 0 <= k < 512 ==> #[trigger] entry(s1.ram, t, k) == 0
                &&& not_free(s1.frames, t)
            }
        },
    decreases level,
{
    if level > 0 {
        lemma_ensured_takes(s, pml4, virt, level - 1);
        reveal_with_fuel(tables_missing_to, 2);
        reveal_with_fuel(large_page_to, 2);
        reveal_with_fuel(table_at, 2);
        lemma_zero_absent();
        if let Some((s1, t)) = ensured_to(s, pml4, virt, level - 1) {
            let i = index(virt, level - 1);
            if table_at(s.ram, pml4, virt, level - 1) is Some {
                assert(s1 == s);
                assert(not_free(s.frames, t));
            } else {
                assert(entry(s1.ram, t, i) == 0);
            }
            if !present(entry(s1.ram, t, i)) {
                law_allocation(s1.frames);
                lemma_taken(s1);
                assert(table_at(s.ram, pml4, virt, level) is None);
                if let Some(p) = s1.frames.take().1 {
                    assert(t != p);
                    assert forall|k: int| 0 <= k < 512 implies #[trigger] entry(
                        (ensured(s1, t, i)->0).0.ram,
                        p,
                        k,
                    ) == 0 by {
                        lemma_fresh(s1, t, i, k);
                    }
                }
            }
        }
    }
}

spec fn tables_missing_to(ram: Seq<u64>, pml4: u64, virt: u64, level: int) -> int
    decreases level,
{
    if level <= 0 || table_at(ram, pml4, virt, level) is Some {
        0
    } else {
        1 + tables_missing_to(ram, pml4, virt, level - 1)
    }
}

/// Mapping a page succeeds exactly when there are as many free frames as
/// tables missing on the way to it, and no large page is in the way.
pub proof fn law_mappable(s: Mem, pml4: u64, virt: u64, phys: u64, flags: u64)
    requires
        s.wf(),
        path_ok(s.ram, pml4, virt),
        path_used(s, pml4, virt),
    ensures
        mapped(s, pml4, virt, phys, flags) is Some <==> s.frames.free() >= tables_missing(s.ram, pml4, virt)
            && !large_page(s.ram, pml4, virt),
{
    lemma_ensured_takes(s, pml4, virt, 3);
    reveal_with_fuel(tables_missing_to, 4);
    if table_at(s.ram, pml4, virt, 1) is None {
        lemma_missing(s.ram, pml4, virt, 1, 2);
        lemma_missing(s.ram, pml4, virt, 1, 3);
    } else if table_at(s.ram, pml4, virt, 2) is None {
        lemma_missing(s.ram, pml4, virt, 2, 3);
    }
}

proof fn lemma_large_page(ram: Seq<u64>, pml4: u64, virt: u64, level: int)
    requires
        0 <= level <= 3,
        large_page_to(ram, pml4, virt, level),
    ensures
        large_page(ram, pml4, virt),
{
    reveal_with_fuel(large_page_to, 4);
}

proof fn lemma_no_large_page(ram: Seq<u64>, pml4: u64, virt: u64, level: int)
    requires
        0 < level <= 3,
        table_at(ram, pml4, virt, level) is None,
        !large_page_to(ram, pml4, virt, level),
    ensures
        !large_page(ram, pml4, virt),
{
    reveal_with_fuel(large_page_to, 4);
    reveal_with_fuel(table_at, 4);
}

/// Whether `virt` can be mapped.
pub fn can_map(mem: &Memory, pml4: u64, virt: u64) -> (r: bool)
    requires
        mem.wf(),
        path_ok(mem.ram@, pml4, virt),
        path_used(mem@, pml4, virt),
    ensures
        forall|phys: u64, flags: u64| r == (#[trigger] mapped(mem@, pml4, virt, phys, flags) is Some),
{
    let idx = indices(virt);
    let mut table: u64 = pml4;
    let mut missing: u64 = 3;
    let ghost ram = mem.ram@;
    let ghost mut level: int = 0;
    assert(table_at(ram, pml4, virt, 0) == Some(pml4));
    while missing > 0
        invariant
            mem.ram@ == ram,
            missing <= 3,
            level == 3 - missing,
            mem.wf(),
            path_ok(ram, pml4, virt),
            path_used(mem@, pml4, virt),
            table_at(ram, pml4, virt, level) == Some(table),
            !large_page_to(ram, pml4, virt, level),
            forall|n: int| 0 <= n < 4 ==> #[trigger] idx@[n] == index(virt, n),
        ensures
            missing <= 3,
            table_at(ram, pml4, virt, 3 - missing) is Some,
            missing > 0 ==> table_at(ram, pml4, virt, 4 - missing) is None,
            !large_page_to(ram, pml4, virt, 3),
        decreases missing,
    {
        assert(idx@[3 - missing] == index(virt, level));
        assert(in_ram(ram, table));
        let e: u64 = read_entry(&mem.ram, table, idx[(3 - missing) as usize]);
        if e & PAGE_PRESENT == 0 {
            proof {
                assert(table_at(ram, pml4, virt, level + 1) is None);
                lemma_no_large_page(ram, pml4, virt, level + 1);
            }
            break;
        }
        if e & PAGE_HUGE != 0 {
            proof {
                lemma_large_page(ram, pml4, virt, level + 1);
                assert forall|phys: u64, flags: u64| !(#[trigger] mapped(mem@, pml4, virt, phys, flags) is Some) by {
                    law_mappable(mem@, pml4, virt, phys, flags);
                }
            }
            return false;
        }
        table = e & ADDR_MASK;
        assert(table_at(ram, pml4, virt, level + 1) == Some(table));
        missing -= 1;
        proof {
            level = level + 1;
        }
    }
    proof {
        reveal_with_fuel(table_at, 4);
        assert(missing == tables_missing(ram, pml4, virt));
        assert forall|phys: u64, flags: u64|
            (mem@.frames.free() >= missing) == (#[trigger] mapped(mem@, pml4, virt, phys, flags) is Some) by {
            law_mappable(mem@, pml4, virt, phys, flags);
        }
    }
    stats(&mem.pmm).1 >= missing
}

/// Filling a frame that was free changes no table and no mapping.
pub proof fn lemma_frame_filled(s: Mem, pml4: u64, p: u64, data: Seq<u8>)
    requires
        s.wf(),
        tables_ok(s.ram, pml4),
        tables_used(s, pml4),
        p % 4096 == 0,
        p / FRAME_SIZE < s.frames.used.len(),
        !s.frames.used[(p / FRAME_SIZE) as int],
        data.len() <= 4096,
    ensures
        with_bytes(s.ram, p as int, data).len() == s.ram.len(),
        tables_ok(with_bytes(s.ram, p as int, data), pml4),
        tables_used(
            (Mem {
                ram: with_bytes(s.ram, p as int, data),
                frames: Frames { used: s.frames.used.update((p / FRAME_SIZE) as int, true), hint: s.frames.hint },
            }),
            pml4,
        ),
        forall|w: u64| #[trigger] leaf_of(with_bytes(s.ram, p as int, data), pml4, w) == leaf_of(s.ram, pml4, w),
{
    let ram = with_bytes(s.ram, p as int, data);
    assert(p + 4096 <= s.ram.len() * 8);
    lemma_with_bytes_words(s.ram, p as int, data);
    assert forall|t: u64, i: int|
        not_free(s.frames, t) && in_ram(s.ram, t) && 0 <= i < 512 implies #[trigger] entry(ram, t, i) == entry(
        s.ram,
        t,
        i,
    ) by {
        assert(t / FRAME_SIZE != p / FRAME_SIZE);
    }
    assert forall|w: u64, n: int| 0 <= n <= 3 implies #[trigger] table_at(ram, pml4, w, n) == table_at(
        s.ram,
        pml4,
        w,
        n,
    ) by {
        lemma_tables_same(s, ram, pml4, w, n);
    }
    lemma_tree_kept(s.ram, ram, pml4);
    let frames = Frames { used: s.frames.used.update((p / FRAME_SIZE) as int, true), hint: s.frames.hint };
    let s1 = Mem { ram, frames };
    assert forall|v: u64| path_used(s1, pml4, v) by {
        assert(path_used(s, pml4, v));
        assert forall|n: int| 0 <= n <= 3 implies (#[trigger] table_at(s1.ram, pml4, v, n) matches Some(t)
            ==> not_free(s1.frames, t)) by {
            assert(table_at(ram, pml4, v, n) == table_at(s.ram, pml4, v, n));
        }
    }
    assert forall|w: u64| #[trigger] leaf_of(ram, pml4, w) == leaf_of(s.ram, pml4, w) by {
        assert(table_at(ram, pml4, w, 3) == table_at(s.ram, pml4, w, 3));
        assert(path_ok(s.ram, pml4, w) && path_used(s, pml4, w));
    }
}

/// Memory that agrees on every table in use has the same tables.
proof fn lemma_tables_same(s: Mem, ram: Seq<u64>, pml4: u64, w: u64, n: int)
    requires
        0 <= n <= 3,
        path_ok(s.ram, pml4, w),
        path_used(s, pml4, w),
        forall|t: u64, i: int|
            not_free(s.frames, t) && in_ram(s.ram, t) && 0 <= i < 512 ==> #[trigger] entry(ram, t, i) == entry(
                s.ram,
                t,
                i,
            ),
    ensures
        table_at(ram, pml4, w, n) == table_at(s.ram, pml4, w, n),
    decreases n,
{
    if n > 0 {
        lemma_tables_same(s, ram, pml4, w, n - 1);
        if let Some(t) = table_at(s.ram, pml4, w, n - 1) {
            assert(entry(ram, t, index(w, n - 1)) == entry(s.ram, t, index(w, n - 1)));
        }
    }
}

} // verus!
