//! Address spaces and what they hold: pages of data that are no page tables,
//! placed one by one, and written to by their virtual addresses.
use crate::paging::{
    entry, ensured, ensured_to, not_free, leaf, leaf_of, lemma_ensured_all, lemma_ensured_to, lemma_entries,
    lemma_leaf_write, lemma_link_table, lemma_new_space_table, lemma_taken, lemma_tree, lemma_tree_kept,
    lemma_zero_absent, law_map, law_new_address_space, map_page_in, mapped, path_ok, path_used, present, slot,
    table_at, tables_ok, tables_used, target, translate, translation, tree, with_root, Mem, Memory, ADDR_MASK,
};
use crate::pmm::{alloc_frame, Frames, FRAME_SIZE};
use crate::ram::{
    byte_at, in_ram, lemma_with_byte, lemma_with_bytes, lemma_with_bytes_words, store_byte, store_bytes, with_byte,
    with_bytes, zeroed,
};
use crate::room::{can_map, lemma_frame_filled};
use crate::vaddr::{index, lemma_index, same_page, same_prefix};
use crate::vm::USER_END;
use vstd::prelude::*;

verus! {

broadcast use lemma_index;

/// Whether an address lies in the half that belongs to programs.
pub open spec fn lower(v: u64) -> bool {
    index(v, 0) < 256
}

/// Whether `q` is one of the tables of an address space.
pub open spec fn is_table(ram: Seq<u64>, pml4: u64, q: u64) -> bool {
    exists|w: u64, n: int| 0 <= n <= 3 && #[trigger] table_at(ram, pml4, w, n) == Some(q)
}

/// A frame that holds data: it lies in memory, the allocator has it in use,
/// and it is no table.
pub open spec fn data_frame(s: Mem, pml4: u64, q: u64) -> bool {
    &&& in_ram(s.ram, q)
    &&& q / FRAME_SIZE < s.frames.used.len()
    &&& not_free(s.frames, q)
    &&& !is_table(s.ram, pml4, q)
}

/// Every page that a program has is mapped to a frame that holds data, and no
/// two pages to the same one.
#[verifier::opaque]
pub open spec fn data_apart(s: Mem, pml4: u64) -> bool {
    &&& forall|v: u64|
        lower(v) ==> (#[trigger] leaf_of(s.ram, pml4, v) matches Some(e) ==> data_frame(s, pml4, target(e)))
    &&& forall|v: u64, w: u64|
        lower(v) && lower(w) && (#[trigger] leaf_of(s.ram, pml4, v)) is Some && (#[trigger] leaf_of(
            s.ram,
            pml4,
            w,
        )) is Some && target(leaf_of(s.ram, pml4, v)->0) == target(leaf_of(s.ram, pml4, w)->0) ==> same_page(v, w)
}

/// The tables of an address space are in order, and none of them is mapped
/// where a program could reach it.
#[verifier::opaque]
pub open spec fn space_ok(s: Mem, pml4: u64) -> bool {
    tables_ok(s.ram, pml4) && tables_used(s, pml4) && data_apart(s, pml4)
}

/// The byte that an address space has at `a`.
pub open spec fn vbyte(ram: Seq<u64>, pml4: u64, a: u64) -> Option<u8> {
    match translation(ram, pml4, a) {
        None => None,
        Some(p) => Some(byte_at(ram, p + a % 4096)),
    }
}

pub open spec fn frame_same(ram: Seq<u64>, after: Seq<u64>, q: u64) -> bool {
    after.len() == ram.len() && forall|i: int| 0 <= i < 512 ==> #[trigger] entry(after, q, i) == entry(ram, q, i)
}

/// Adding tables on the way to `virt` leaves every frame that holds data
/// alone.
proof fn lemma_frame_kept(s: Mem, pml4: u64, virt: u64, level: int, q: u64)
    requires
        s.wf(),
        tables_ok(s.ram, pml4),
        tables_used(s, pml4),
        0 <= level <= 3,
        ensured_to(s, pml4, virt, level) is Some,
        data_frame(s, pml4, q),
    ensures
        ({
            let (s1, _) = ensured_to(s, pml4, virt, level)->0;
            &&& data_frame(s1, pml4, q)
            &&& frame_same(s.ram, s1.ram, q)
        }),
    decreases level,
{
    if level > 0 {
        lemma_ensured_all(s, pml4, virt, level - 1, level);
        lemma_frame_kept(s, pml4, virt, level - 1, q);
        lemma_ensured_to(s, pml4, virt, level - 1);
        let (s0, t) = ensured_to(s, pml4, virt, level - 1)->0;
        let i = index(virt, level - 1);
        assert(path_ok(s0.ram, pml4, virt));
        if !present(entry(s0.ram, t, i)) {
            lemma_taken(s0);
            let p = s0.frames.take().1->0;
            let s1 = (ensured(s0, t, i)->0).0;
            assert(t != q);
            assert(p != q);
            assert forall|k: int| 0 <= k < 512 implies #[trigger] entry(s1.ram, q, k) == entry(s.ram, q, k) by {
                assert(entry(s0.ram, q, k) == entry(s.ram, q, k));
                assert(slot(q, k) != slot(t, i));
                assert(entry(zeroed(s0.ram, p), q, k) == entry(s0.ram, q, k));
            }
            assert forall|w: u64, n: int| 0 <= n <= 3 implies #[trigger] table_at(s1.ram, pml4, w, n) != Some(q) by {
                lemma_link_table(s0, pml4, virt, level - 1, w, n);
                assert(table_at(s0.ram, pml4, w, n) != Some(q));
            }
        }
    }
}

proof fn lemma_mapped_frame(s: Mem, pml4: u64, virt: u64, phys: u64, flags: u64, q: u64)
    requires
        s.wf(),
        tables_ok(s.ram, pml4),
        tables_used(s, pml4),
        mapped(s, pml4, virt, phys, flags) is Some,
        data_frame(s, pml4, q),
    ensures
        ({
            let s1 = mapped(s, pml4, virt, phys, flags)->0;
            &&& data_frame(s1, pml4, q)
            &&& frame_same(s.ram, s1.ram, q)
        }),
{
    lemma_frame_kept(s, pml4, virt, 3, q);
    lemma_ensured_to(s, pml4, virt, 3);
    let (s1, t) = ensured_to(s, pml4, virt, 3)->0;
    lemma_leaf_write(s1.ram, pml4, virt, leaf(phys, flags));
    let s2 = mapped(s, pml4, virt, phys, flags)->0;
    assert(path_ok(s1.ram, pml4, virt));
    assert(t != q);
    assert forall|k: int| 0 <= k < 512 implies #[trigger] entry(s2.ram, q, k) == entry(s.ram, q, k) by {
        assert(entry(s1.ram, q, k) == entry(s.ram, q, k));
        assert(slot(q, k) != slot(t, index(virt, 3)));
    }
    assert forall|w: u64, n: int| 0 <= n <= 3 implies #[trigger] table_at(s2.ram, pml4, w, n) != Some(q) by {
        assert(table_at(s1.ram, pml4, w, n) != Some(q));
    }
}

pub proof fn lemma_frame_bytes(ram: Seq<u64>, after: Seq<u64>, q: u64, k: int)
    requires
        frame_same(ram, after, q),
        q % 4096 == 0,
        0 <= k < 4096,
    ensures
        byte_at(after, q + k) == byte_at(ram, q + k),
{
    assert(entry(after, q, k / 8) == entry(ram, q, k / 8));
    assert((q + k) / 8 == q / 8 + k / 8);
}

/// Maps a fresh frame at `virt`, with `data` at its start. If there is no
/// memory for the frame or for a table, that fails with `what`.
pub open spec fn placed(s: Mem, pml4: u64, virt: u64, flags: u64, data: Seq<u8>, what: &'static str) -> (
    Mem,
    Result<(), &'static str>,
) {
    match s.frames.take() {
        (_, None) => (s, Err(what)),
        (frames, Some(p)) => {
            let filled = Mem { ram: with_bytes(s.ram, p as int, data), frames };
            match mapped(filled, pml4, virt, p, flags) {
                None => (filled, Err(what)),
                Some(s1) => (s1, Ok(())),
            }
        },
    }
}

/// What placing a page does to an address space.
pub open spec fn placed_ok(s: Mem, s1: Mem, pml4: u64, virt: u64, data: Seq<u8>, ok: bool) -> bool {
    &&& s1.wf()
    &&& s1.ram.len() == s.ram.len()
    &&& space_ok(s1, pml4)
    &&& forall|a: u64|
        #![trigger vbyte(s1.ram, pml4, a)]
        lower(a) && (!ok || !same_page(virt, a)) ==> vbyte(s1.ram, pml4, a) == vbyte(s.ram, pml4, a)
    &&& ok ==> forall|a: u64|
        #![trigger vbyte(s1.ram, pml4, a)]
        lower(a) && same_page(virt, a) ==> (vbyte(s1.ram, pml4, a) matches Some(b) && (a % 4096 < data.len() ==> b
            == data[(a % 4096) as int]))
}

/// A frame that was free and has been filled holds data, and everything else
/// is as before.
pub proof fn lemma_filled(s: Mem, pml4: u64, data: Seq<u8>)
    requires
        s.wf(),
        space_ok(s, pml4),
        data.len() <= 4096,
        s.frames.take().1 is Some,
    ensures
        ({
            let (frames, p) = (s.frames.take().0, s.frames.take().1->0);
            let s1 = Mem { ram: with_bytes(s.ram, p as int, data), frames };
            &&& s1.wf()
            &&& s1.ram.len() == s.ram.len()
            &&& space_ok(s1, pml4)
            &&& data_frame(s1, pml4, p)
            &&& p % 4096 == 0 && p & !ADDR_MASK == 0
            &&& forall|w: u64| #[trigger] leaf_of(s1.ram, pml4, w) == leaf_of(s.ram, pml4, w)
            &&& forall|a: u64| lower(a) ==> #[trigger] vbyte(s1.ram, pml4, a) == vbyte(s.ram, pml4, a)
            &&& forall|k: int| 0 <= k < data.len() ==> #[trigger] byte_at(s1.ram, p + k) == data[k]
        }),
{
    reveal(space_ok);
    let (frames, p) = (s.frames.take().0, s.frames.take().1->0);
    let s1 = Mem { ram: with_bytes(s.ram, p as int, data), frames };
    lemma_taken(s);
    lemma_frame_filled(s, pml4, p, data);
    lemma_with_bytes(s.ram, p as int, data);
    lemma_with_bytes_words(s.ram, p as int, data);
    let s2 = Mem {
        ram: s1.ram,
        frames: Frames { used: s.frames.used.update((p / FRAME_SIZE) as int, true), hint: s.frames.hint },
    };
    assert forall|v: u64| path_used(s1, pml4, v) by {
        assert(path_used(s2, pml4, v));
    }
    assert forall|w: u64, n: int| 0 <= n <= 3 implies #[trigger] table_at(s1.ram, pml4, w, n) == table_at(
        s.ram,
        pml4,
        w,
        n,
    ) by {
        lemma_unfilled_tables(s, p, data, pml4, w, n);
    }
    assert(!is_table(s1.ram, pml4, p)) by {
        if is_table(s1.ram, pml4, p) {
            let (w, n) = choose|w: u64, n: int| 0 <= n <= 3 && #[trigger] table_at(s1.ram, pml4, w, n) == Some(p);
            assert(path_used(s, pml4, w));
            assert(table_at(s.ram, pml4, w, n) == Some(p));
        }
    }
    reveal(data_apart);
    assert forall|v: u64| lower(v) implies (#[trigger] leaf_of(s1.ram, pml4, v) matches Some(e) ==> data_frame(
        s1,
        pml4,
        target(e),
    )) by {
        assert(leaf_of(s1.ram, pml4, v) == leaf_of(s.ram, pml4, v));
        if let Some(e) = leaf_of(s.ram, pml4, v) {
            assert(data_frame(s, pml4, target(e)));
            if is_table(s1.ram, pml4, target(e)) {
                let (w, n) = choose|w: u64, n: int|
                    0 <= n <= 3 && #[trigger] table_at(s1.ram, pml4, w, n) == Some(target(e));
                assert(table_at(s.ram, pml4, w, n) == Some(target(e)));
            }
        }
    }
    assert forall|v: u64, w: u64|
        lower(v) && lower(w) && (#[trigger] leaf_of(s1.ram, pml4, v)) is Some && (#[trigger] leaf_of(
            s1.ram,
            pml4,
            w,
        )) is Some && target(leaf_of(s1.ram, pml4, v)->0) == target(leaf_of(s1.ram, pml4, w)->0) implies same_page(
        v,
        w,
    ) by {
        assert(leaf_of(s1.ram, pml4, v) == leaf_of(s.ram, pml4, v));
        assert(leaf_of(s1.ram, pml4, w) == leaf_of(s.ram, pml4, w));
    }
    assert forall|a: u64| lower(a) implies #[trigger] vbyte(s1.ram, pml4, a) == vbyte(s.ram, pml4, a) by {
        assert(leaf_of(s1.ram, pml4, a) == leaf_of(s.ram, pml4, a));
        if let Some(e) = leaf_of(s.ram, pml4, a) {
            let q = target(e);
            assert(data_frame(s, pml4, q));
            assert(q / FRAME_SIZE != p / FRAME_SIZE);
            assert forall|i: int| 0 <= i < 512 implies #[trigger] entry(s1.ram, q, i) == entry(s.ram, q, i) by {}
            lemma_frame_bytes(s.ram, s1.ram, q, (a % 4096) as int);
        }
    }
    assert forall|k: int| 0 <= k < data.len() implies #[trigger] byte_at(s1.ram, p + k) == data[k] by {}
}

pub proof fn lemma_unfilled_tables(s: Mem, p: u64, data: Seq<u8>, pml4: u64, w: u64, n: int)
    requires
        s.wf(),
        tables_ok(s.ram, pml4),
        tables_used(s, pml4),
        data.len() <= 4096,
        s.frames.take().1 == Some(p),
        0 <= n <= 3,
    ensures
        table_at(with_bytes(s.ram, p as int, data), pml4, w, n) == table_at(s.ram, pml4, w, n),
    decreases n,
{
    lemma_taken(s);
    lemma_with_bytes_words(s.ram, p as int, data);
    if n > 0 {
        lemma_unfilled_tables(s, p, data, pml4, w, n - 1);
        assert(path_ok(s.ram, pml4, w) && path_used(s, pml4, w));
        if let Some(t) = table_at(s.ram, pml4, w, n - 1) {
            assert(t / FRAME_SIZE != p / FRAME_SIZE);
            assert(entry(with_bytes(s.ram, p as int, data), t, index(w, n - 1)) == entry(
                s.ram,
                t,
                index(w, n - 1),
            ));
        }
    }
}

/// A page's frame is not one that is still free.
pub proof fn lemma_not_fresh(s: Mem, pml4: u64, v: u64)
    requires
        s.wf(),
        space_ok(s, pml4),
        lower(v),
        s.frames.take().1 is Some,
    ensures
        leaf_of(s.ram, pml4, v) is Some ==> target(leaf_of(s.ram, pml4, v)->0) != s.frames.take().1->0,
{
    reveal(space_ok);
    reveal(data_apart);
    lemma_taken(s);
    if leaf_of(s.ram, pml4, v) is Some {
        assert(data_frame(s, pml4, target(leaf_of(s.ram, pml4, v)->0)));
    }
}

/// Placing a page gives it its contents, changes no other page that the
/// program has, and keeps the address space in order.
pub proof fn law_placed(s: Mem, pml4: u64, virt: u64, flags: u64, data: Seq<u8>, what: &'static str)
    requires
        s.wf(),
        space_ok(s, pml4),
        data.len() <= 4096,
        flags & ADDR_MASK == 0,
    ensures
        ({
            let (s1, r) = placed(s, pml4, virt, flags, data, what);
            placed_ok(s, s1, pml4, virt, data, r is Ok)
        }),
{
    reveal(space_ok);
    if let Some(p) = s.frames.take().1 {
        let frames = s.frames.take().0;
        let s1 = Mem { ram: with_bytes(s.ram, p as int, data), frames };
        lemma_filled(s, pml4, data);
        if let Some(s2) = mapped(s1, pml4, virt, p, flags) {
            law_map(s1, pml4, virt, p, flags);
            lemma_entries(p, flags, 0);
            lemma_mapped_frame(s1, pml4, virt, p, flags, p);
            reveal(data_apart);
            assert forall|v: u64| lower(v) implies (#[trigger] leaf_of(s2.ram, pml4, v) matches Some(e) ==> data_frame(
                s2,
                pml4,
                target(e),
            )) by {
                assert(leaf_of(s2.ram, pml4, v) == if same_page(virt, v) {
                    Some(leaf(p, flags))
                } else {
                    leaf_of(s1.ram, pml4, v)
                });
                if !same_page(virt, v) {
                    if let Some(e) = leaf_of(s1.ram, pml4, v) {
                        assert(data_frame(s1, pml4, target(e)));
                        lemma_mapped_frame(s1, pml4, virt, p, flags, target(e));
                    }
                }
            }
            assert forall|v: u64, w: u64|
                lower(v) && lower(w) && (#[trigger] leaf_of(s2.ram, pml4, v)) is Some && (#[trigger] leaf_of(
                    s2.ram,
                    pml4,
                    w,
                )) is Some && target(leaf_of(s2.ram, pml4, v)->0) == target(
                    leaf_of(s2.ram, pml4, w)->0,
                ) implies same_page(v, w) by {
                lemma_not_fresh(s, pml4, v);
                lemma_not_fresh(s, pml4, w);
                assert(leaf_of(s1.ram, pml4, v) == leaf_of(s.ram, pml4, v));
                assert(leaf_of(s1.ram, pml4, w) == leaf_of(s.ram, pml4, w));
            }
            assert forall|a: u64| #![trigger vbyte(s2.ram, pml4, a)]
                lower(a) && !same_page(virt, a) implies vbyte(s2.ram, pml4, a) == vbyte(s.ram, pml4, a) by {
                assert(leaf_of(s2.ram, pml4, a) == leaf_of(s1.ram, pml4, a));
                assert(vbyte(s1.ram, pml4, a) == vbyte(s.ram, pml4, a));
                if let Some(e) = leaf_of(s1.ram, pml4, a) {
                    assert(data_frame(s1, pml4, target(e)));
                    lemma_mapped_frame(s1, pml4, virt, p, flags, target(e));
                    lemma_frame_bytes(s1.ram, s2.ram, target(e), (a % 4096) as int);
                }
            }
            assert forall|a: u64| #![trigger vbyte(s2.ram, pml4, a)]
                lower(a) && same_page(virt, a) implies (vbyte(s2.ram, pml4, a) matches Some(b) && (a % 4096 < data.len()
                ==> b == data[(a % 4096) as int])) by {
                assert(leaf_of(s2.ram, pml4, a) == Some(leaf(p, flags)));
                lemma_frame_bytes(s1.ram, s2.ram, p, (a % 4096) as int);
                if a % 4096 < data.len() {
                    assert(byte_at(s1.ram, p + (a % 4096) as int) == data[(a % 4096) as int]);
                }
            }
        }
    }
}

/// Maps a fresh frame at `virt`, with `data` at its start.
pub(crate) fn place_page(
    mem: &mut Memory,
    pml4: u64,
    virt: u64,
    flags: u64,
    data: &[u8],
    what: &'static str,
) -> (r: Result<(), &'static str>)
    requires
        old(mem).wf(),
        space_ok(old(mem)@, pml4),
        data@.len() <= 4096,
        flags & ADDR_MASK == 0,
    ensures
        final(mem).wf(),
        space_ok(final(mem)@, pml4),
        (final(mem)@, r) == placed(old(mem)@, pml4, virt, flags, data@, what),
        final(mem).ram.len() == old(mem).ram.len(),
        final(mem).cr3 == old(mem).cr3,
        final(mem).nx == old(mem).nx,
        final(mem).pmm.ready() == old(mem).pmm.ready(),
        final(mem).pmm.offset() == old(mem).pmm.offset(),
{
    proof {
        reveal(space_ok);
    }
    let ghost s = mem@;
    proof {
        law_placed(s, pml4, virt, flags, data@, what);
        lemma_taken(s);
        if s.frames.take().1 is Some {
            lemma_filled(s, pml4, data@);
        }
    }
    let p: u64 = match alloc_frame(&mut mem.pmm) {
        Some(p) => p,
        None => {
            return Err(what);
        },
    };
    store_bytes(&mut mem.ram, p, data);
    assert(path_ok(mem.ram@, pml4, virt) && path_used(mem@, pml4, virt));
    if !can_map(mem, pml4, virt) {
        assert(mapped(mem@, pml4, virt, p, flags) is None);
        return Err(what);
    }
    assert(mapped(mem@, pml4, virt, p, flags) is Some);
    map_page_in(mem, pml4, virt, p, flags);
    Ok(())
}

/// Memory after writing one byte at the address `a` of an address space, if
/// a program has that page. The half from `USER_END` up is the kernel's: its
/// pages are the same in every address space, and no segment's.
pub open spec fn poked(ram: Seq<u64>, pml4: u64, a: u64, v: u8) -> Option<Seq<u64>> {
    match translation(ram, pml4, a) {
        Some(p) if a < USER_END => Some(with_byte(ram, p + a % 4096, v)),
        _ => None,
    }
}

/// Memory after writing the first `n` bytes of `data` from `a` on, or as far
/// as pages go; then it fails with `what`.
pub open spec fn poked_all(ram: Seq<u64>, pml4: u64, a: u64, data: Seq<u8>, what: &'static str, n: int) -> (
    Seq<u64>,
    Result<(), &'static str>,
)
    decreases n,
{
    if n <= 0 {
        (ram, Ok(()))
    } else {
        let (before, r) = poked_all(ram, pml4, a, data, what, n - 1);
        match (r, poked(before, pml4, a.wrapping_add((n - 1) as u64), data[n - 1])) {
            (Err(e), _) => (before, Err(e)),
            (Ok(_), None) => (before, Err(what)),
            (Ok(_), Some(after)) => (after, Ok(())),
        }
    }
}

proof fn lemma_poked_fail(ram: Seq<u64>, pml4: u64, a: u64, data: Seq<u8>, what: &'static str, n: int, m: int)
    requires
        n <= m,
        poked_all(ram, pml4, a, data, what, n).1 is Err,
    ensures
        poked_all(ram, pml4, a, data, what, m) == poked_all(ram, pml4, a, data, what, n),
    decreases m - n,
{
    if n < m && m > 0 {
        lemma_poked_fail(ram, pml4, a, data, what, n, m - 1);
    }
}

pub proof fn lemma_lower(a: u64)
    requires
        a < USER_END,
    ensures
        lower(a),
{
    reveal(index);
}

/// Writing a byte of a page changes that byte and nothing else that a program
/// sees, and keeps the address space in order.
#[verifier::spinoff_prover]
#[verifier::rlimit(40)]
pub proof fn law_poked(s: Mem, pml4: u64, a: u64, v: u8)
    requires
        s.wf(),
        space_ok(s, pml4),
        poked(s.ram, pml4, a, v) is Some,
    ensures
        ({
            let s1 = Mem { ram: poked(s.ram, pml4, a, v)->0, ..s };
            &&& s1.wf()
            &&& s1.ram.len() == s.ram.len()
            &&& space_ok(s1, pml4)
            &&& forall|w: u64| #[trigger] leaf_of(s1.ram, pml4, w) == leaf_of(s.ram, pml4, w)
            &&& forall|b: u64|
                #![trigger vbyte(s1.ram, pml4, b)]
                lower(b) ==> vbyte(s1.ram, pml4, b) == if same_page(a, b) && b % 4096 == a % 4096 {
                    Some(v)
                } else {
                    vbyte(s.ram, pml4, b)
                }
        }),
{
    reveal(space_ok);
    lemma_lower(a);
    reveal(data_apart);
    let e = leaf_of(s.ram, pml4, a)->0;
    let q = target(e);
    assert(data_frame(s, pml4, q));
    let at = q + a % 4096;
    let ram = poked(s.ram, pml4, a, v)->0;
    let s1 = Mem { ram, ..s };
    assert(ram == with_byte(s.ram, at, v));
    lemma_with_byte(s.ram, at, v);
    assert forall|w: u64, n: int| 0 <= n <= 3 implies #[trigger] table_at(ram, pml4, w, n) == table_at(
        s.ram,
        pml4,
        w,
        n,
    ) by {
        lemma_poked_tables(s, pml4, q, at, v, w, n);
    }
    lemma_tree_kept(s.ram, ram, pml4);
    assert forall|w: u64| #[trigger] leaf_of(ram, pml4, w) == leaf_of(s.ram, pml4, w) by {
        assert(table_at(ram, pml4, w, 3) == table_at(s.ram, pml4, w, 3));
        assert(path_ok(s.ram, pml4, w));
        if let Some(t) = table_at(s.ram, pml4, w, 3) {
            assert(t != q);
            lemma_other_word(s.ram, q, at, v, t, index(w, 3));
        }
    }
    assert forall|w: u64| path_used(s1, pml4, w) by {
        assert(path_used(s, pml4, w));
    }
    assert forall|w: u64| lower(w) implies (#[trigger] leaf_of(s1.ram, pml4, w) matches Some(x) ==> data_frame(
        s1,
        pml4,
        target(x),
    )) by {
        assert(leaf_of(s1.ram, pml4, w) == leaf_of(s.ram, pml4, w));
        if let Some(x) = leaf_of(s.ram, pml4, w) {
            assert(data_frame(s, pml4, target(x)));
            if is_table(s1.ram, pml4, target(x)) {
                let (y, n) = choose|y: u64, n: int|
                    0 <= n <= 3 && #[trigger] table_at(s1.ram, pml4, y, n) == Some(target(x));
                assert(table_at(s.ram, pml4, y, n) == Some(target(x)));
            }
        }
    }
    assert forall|b: u64|
        #![trigger vbyte(s1.ram, pml4, b)]
        lower(b) implies vbyte(s1.ram, pml4, b) == if same_page(a, b) && b % 4096 == a % 4096 {
        Some(v)
    } else {
        vbyte(s.ram, pml4, b)
    } by {
        assert(leaf_of(s1.ram, pml4, b) == leaf_of(s.ram, pml4, b));
        if same_page(a, b) {
            lemma_same_leaf(s.ram, pml4, a, b);
        }
        if let Some(x) = leaf_of(s.ram, pml4, b) {
            assert(data_frame(s, pml4, target(x)));
            let p = target(x);
            let k = p + b % 4096;
            if k == at {
                assert(p / 4096 == q / 4096);
                assert(p == q);
                assert(same_page(a, b));
            }
            assert(byte_at(ram, k) == if k == at {
                v
            } else {
                byte_at(s.ram, k)
            });
        }
    }
}

/// Addresses in the same page have the same mapping.
pub proof fn lemma_same_leaf(ram: Seq<u64>, pml4: u64, v: u64, w: u64)
    requires
        same_page(v, w),
    ensures
        leaf_of(ram, pml4, v) == leaf_of(ram, pml4, w),
{
    reveal_with_fuel(table_at, 4);
}

pub proof fn lemma_other_word(ram: Seq<u64>, q: u64, at: int, v: u8, t: u64, i: int)
    requires
        in_ram(ram, q),
        in_ram(ram, t),
        q != t,
        q <= at < q + 4096,
        0 <= i < 512,
    ensures
        entry(with_byte(ram, at, v), t, i) == entry(ram, t, i),
{
    let a = (t / 4096) as int;
    let b = (q / 4096) as int;
    assert(t == 4096 * a && q == 4096 * b);
    assert(t / 8 == 512 * a);
    assert(512 * b <= at / 8 < 512 * b + 512);
    assert(a != b);
}

pub proof fn lemma_poked_tables(s: Mem, pml4: u64, q: u64, at: int, v: u8, w: u64, n: int)
    requires
        tables_ok(s.ram, pml4),
        in_ram(s.ram, q),
        !is_table(s.ram, pml4, q),
        q <= at < q + 4096,
        0 <= n <= 3,
    ensures
        table_at(with_byte(s.ram, at, v), pml4, w, n) == table_at(s.ram, pml4, w, n),
    decreases n,
{
    if n > 0 {
        lemma_poked_tables(s, pml4, q, at, v, w, n - 1);
        assert(path_ok(s.ram, pml4, w));
        if let Some(t) = table_at(s.ram, pml4, w, n - 1) {
            assert(t != q);
            lemma_other_word(s.ram, q, at, v, t, index(w, n - 1));
        }
    }
}

/// Writes one byte at the address `a` of an address space. Returns whether a
/// program has that page.
fn poke(mem: &mut Memory, pml4: u64, a: u64, v: u8) -> (r: bool)
    requires
        old(mem).wf(),
        space_ok(old(mem)@, pml4),
    ensures
        final(mem).wf(),
        space_ok(final(mem)@, pml4),
        match poked(old(mem).ram@, pml4, a, v) {
            Some(ram) => r && final(mem).ram@ == ram,
            None => !r && final(mem).ram@ == old(mem).ram@,
        },
        forall|w: u64| #[trigger] leaf_of(final(mem).ram@, pml4, w) == leaf_of(old(mem).ram@, pml4, w),
        final(mem).ram@.len() == old(mem).ram@.len(),
        final(mem).pmm == old(mem).pmm,
        final(mem).cr3 == old(mem).cr3,
        final(mem).nx == old(mem).nx,
{
    proof {
        reveal(space_ok);
    }
    if a >= USER_END {
        return false;
    }
    let ghost before = mem@;
    assert(path_ok(mem.ram@, pml4, a));
    match translate(mem, pml4, a) {
        None => false,
        Some(p) => {
            proof {
                law_poked(before, pml4, a, v);
                lemma_lower(a);
                reveal(data_apart);
                assert(leaf_of(before.ram, pml4, a) is Some);
                assert(data_frame(before, pml4, p));
            }
            store_byte(&mut mem.ram, p + a % 4096, v);
            true
        },
    }
}

/// Writes `data` from `vaddr` on in an address space, page by page as it is
/// mapped. Fails with `what` at the first page that a program does not have.
pub(crate) fn write_at(mem: &mut Memory, pml4: u64, vaddr: u64, data: &[u8], what: &'static str) -> (r: Result<
    (),
    &'static str,
>)
    requires
        old(mem).wf(),
        space_ok(old(mem)@, pml4),
    ensures
        final(mem).wf(),
        space_ok(final(mem)@, pml4),
        (final(mem).ram@, r) == poked_all(old(mem).ram@, pml4, vaddr, data@, what, data@.len() as int),
        forall|w: u64| #[trigger] leaf_of(final(mem).ram@, pml4, w) == leaf_of(old(mem).ram@, pml4, w),
        final(mem).ram.len() == old(mem).ram.len(),
        final(mem).pmm == old(mem).pmm,
        final(mem).cr3 == old(mem).cr3,
        final(mem).nx == old(mem).nx,
{
    let n: usize = data.len();
    let ghost ram = mem.ram@;
    for i in 0..n
        invariant
            n == data@.len(),
            mem.wf(),
            space_ok(mem@, pml4),
            mem.ram@.len() == ram.len(),
            ram == old(mem).ram@,
            mem.pmm == old(mem).pmm,
            mem.cr3 == old(mem).cr3,
            mem.nx == old(mem).nx,
            forall|w: u64| #[trigger] leaf_of(mem.ram@, pml4, w) == leaf_of(ram, pml4, w),
            poked_all(ram, pml4, vaddr, data@, what, i as int) == (mem.ram@, Ok::<(), &'static str>(())),
    {
        proof {
            if poked_all(ram, pml4, vaddr, data@, what, i + 1).1 is Err {
                lemma_poked_fail(ram, pml4, vaddr, data@, what, i + 1, n as int);
            }
        }
        if !poke(mem, pml4, vaddr.wrapping_add(i as u64), data[i]) {
            return Err(what);
        }
    }
    Ok(())
}

/// A new address space is in order: it shares the upper half of the one it
/// was made from and has nothing in its lower half.
pub proof fn law_new_space_ok(s: Mem, source: u64)
    requires
        s.wf(),
        tables_ok(s.ram, source),
        tables_used(s, source),
        s.frames.take().1 is Some,
    ensures
        ({
            let p = s.frames.take().1->0;
            let s1 = Mem { ram: with_root(s.ram, p, source), frames: s.frames.take().0 };
            &&& s1.wf()
            &&& space_ok(s1, p)
            &&& forall|a: u64| lower(a) ==> #[trigger] vbyte(s1.ram, p, a) is None
        }),
{
    reveal(space_ok);
    let p = s.frames.take().1->0;
    let ram = with_root(s.ram, p, source);
    let s1 = Mem { ram, frames: s.frames.take().0 };
    lemma_taken(s);
    law_new_address_space(s, source);
    lemma_zero_absent();
    assert forall|w: u64, n: int| 1 <= n <= 3 implies #[trigger] table_at(ram, p, w, n) == if lower(w) {
        None
    } else {
        table_at(s.ram, source, w, n)
    } by {
        if lower(w) {
            assert(table_at(ram, p, w, 0) == Some(p));
            assert(entry(ram, p, index(w, 0)) == 0);
            assert(table_at(ram, p, w, 1) is None);
            crate::paging::lemma_missing(ram, p, w, 1, n);
        } else {
            lemma_new_space_table(s, source, w, n);
        }
    }
    assert forall|v: u64| path_ok(ram, p, v) by {
        assert(path_ok(s.ram, source, v));
        assert forall|n: int| 0 <= n <= 3 implies (#[trigger] table_at(ram, p, v, n) matches Some(t) ==> in_ram(
            ram,
            t,
        )) by {
            if n > 0 && !lower(v) {
                assert(table_at(ram, p, v, n) == table_at(s.ram, source, v, n));
            }
        }
    }
    assert forall|v: u64| path_used(s1, p, v) by {
        assert(path_used(s, source, v));
        assert forall|n: int| 0 <= n <= 3 implies (#[trigger] table_at(ram, p, v, n) matches Some(t) ==> not_free(
            s1.frames,
            t,
        )) by {
            if n > 0 && !lower(v) {
                assert(table_at(ram, p, v, n) == table_at(s.ram, source, v, n));
            }
        }
    }
    assert(tree(ram, p)) by {
        reveal(tree);
        assert forall|v: u64, n: int, w: u64, k: int|
            0 <= n <= 3 && 0 <= k <= 3 && (#[trigger] table_at(ram, p, v, n)) is Some && table_at(ram, p, v, n) == (
            #[trigger] table_at(ram, p, w, k)) implies n == k && same_prefix(v, w, n) by {
            assert(path_used(s, source, v) && path_used(s, source, w));
            if n > 0 {
                assert(table_at(ram, p, v, n) == table_at(s.ram, source, v, n));
                assert(not_free(s.frames, table_at(s.ram, source, v, n)->0));
            }
            if k > 0 {
                assert(table_at(ram, p, w, k) == table_at(s.ram, source, w, k));
                assert(not_free(s.frames, table_at(s.ram, source, w, k)->0));
            }
            if n > 0 && k > 0 {
                lemma_tree(s.ram, source, v, n, w, k);
            }
        }
    }
    assert(data_apart(s1, p)) by {
        reveal(data_apart);
    }
    assert forall|a: u64| lower(a) implies #[trigger] vbyte(s1.ram, p, a) is None by {
        assert(leaf_of(ram, p, a) is None);
    }
}

} // verus!
