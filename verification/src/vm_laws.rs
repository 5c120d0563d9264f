//! What mapping, unmapping, protecting and faulting do to an address space:
//! it stays in order, so that every page a program has is its own.
use crate::isolation::{alien, law_placing_is_private, lemma_kept, same_view, separate};
use crate::paging::{
    entry, known, not_free, law_tried_is_mapped, law_try_map, law_unmap, leaf, leaf_of, lemma_entries,
    lemma_leaf_write, lemma_taken, lemma_target_aligned, lemma_tried_tables, mapped, only_fresh, owned, path_ok,
    present, path_used, reflagged, reflagged_pages, slot, table_at, tables_ok, tables_used, target, translation,
    tried, without_tree, Mem, ADDR_MASK,
};
use crate::pmm::FRAME_SIZE;
use crate::ram::{in_ram, with_bytes};
use crate::space::{
    data_apart, data_frame, is_table, law_placed, lemma_filled, lemma_lower, lemma_not_fresh, lemma_same_leaf, lower,
    placed, space_ok, vbyte,
};
use crate::task::FileBacking;
use crate::vaddr::{composed, index, lemma_composed, lemma_index, same_page};
use crate::vm::{
    faulted, mapping, page_contents, page_flags, page_freed, pages_freed, pages_known, protecting, region_from,
    unmapping, Table, USER_END,
};
use crate::volume::{image_ok, Image, Layout};
use vstd::prelude::*;

verus! {

broadcast use lemma_index;

/// Every page of an address space that is in order has a frame that the
/// allocator knows.
pub proof fn lemma_pages_known(s: Mem, cr3: u64)
    requires
        space_ok(s, cr3),
    ensures
        pages_known(s, cr3),
        tables_ok(s.ram, cr3),
        tables_used(s, cr3),
{
    reveal(space_ok);
    reveal(data_apart);
    assert forall|v: u64| v < USER_END implies (#[trigger] translation(s.ram, cr3, v) matches Some(p) ==> p
        / FRAME_SIZE < s.frames.used.len()) by {
        lemma_lower(v);
        if let Some(e) = leaf_of(s.ram, cr3, v) {
            assert(data_frame(s, cr3, target(e)));
        }
    }
}

/// Giving up a page frees its frame and keeps the address space in order.
pub proof fn law_page_freed(s: Mem, cr3: u64, v: u64)
    requires
        s.wf(),
        space_ok(s, cr3),
        v < USER_END,
    ensures
        page_freed(s, cr3, v).wf(),
        page_freed(s, cr3, v).ram.len() == s.ram.len(),
        space_ok(page_freed(s, cr3, v), cr3),
        translation(page_freed(s, cr3, v).ram, cr3, v) is None,
        forall|w: u64|
            !same_page(v, w) ==> #[trigger] leaf_of(page_freed(s, cr3, v).ram, cr3, w) == leaf_of(s.ram, cr3, w),
{
    lemma_lower(v);
    reveal(space_ok);
    reveal(data_apart);
    law_unmap(s.ram, cr3, v);
    if let Some(e) = leaf_of(s.ram, cr3, v) {
        let p = target(e);
        let t = table_at(s.ram, cr3, v, 3)->0;
        lemma_leaf_write(s.ram, cr3, v, 0);
        assert(path_ok(s.ram, cr3, v));
        assert(data_frame(s, cr3, p));
        let s1 = page_freed(s, cr3, v);
        assert(s1.ram == s.ram.update(slot(t, index(v, 3)), 0));
        assert forall|w: u64| path_used(s1, cr3, w) by {
            assert(path_used(s, cr3, w) && path_ok(s.ram, cr3, w));
            assert forall|n: int| 0 <= n <= 3 implies (#[trigger] table_at(s1.ram, cr3, w, n) matches Some(x)
                ==> not_free(s1.frames, x)) by {
                assert(table_at(s1.ram, cr3, w, n) == table_at(s.ram, cr3, w, n));
                if let Some(x) = table_at(s.ram, cr3, w, n) {
                    assert(is_table(s.ram, cr3, x));
                    assert(x / FRAME_SIZE != p / FRAME_SIZE);
                }
            }
        }
        assert forall|q: u64| is_table(s1.ram, cr3, q) implies is_table(s.ram, cr3, q) by {
            let (w, n) = choose|w: u64, n: int| 0 <= n <= 3 && #[trigger] table_at(s1.ram, cr3, w, n) == Some(q);
            assert(table_at(s.ram, cr3, w, n) == Some(q));
        }
        assert forall|w: u64| lower(w) implies (#[trigger] leaf_of(s1.ram, cr3, w) matches Some(x) ==> data_frame(
            s1,
            cr3,
            target(x),
        )) by {
            if let Some(x) = leaf_of(s1.ram, cr3, w) {
                assert(!same_page(v, w));
                assert(leaf_of(s.ram, cr3, w) == Some(x));
                assert(data_frame(s, cr3, target(x)));
                assert(target(x) != p);
                assert(target(x) / FRAME_SIZE != p / FRAME_SIZE);
            }
        }
        assert forall|a: u64, b: u64|
            lower(a) && lower(b) && (#[trigger] leaf_of(s1.ram, cr3, a)) is Some && (#[trigger] leaf_of(
                s1.ram,
                cr3,
                b,
            )) is Some && target(leaf_of(s1.ram, cr3, a)->0) == target(leaf_of(s1.ram, cr3, b)->0) implies same_page(
            a,
            b,
        ) by {
            assert(leaf_of(s1.ram, cr3, a) == leaf_of(s.ram, cr3, a));
            assert(leaf_of(s1.ram, cr3, b) == leaf_of(s.ram, cr3, b));
        }
    }
}

/// Giving up a range of pages keeps the address space in order.
pub proof fn law_pages_freed(s: Mem, cr3: u64, start: int, n: nat)
    requires
        s.wf(),
        space_ok(s, cr3),
        0 <= start,
        start + 4096 * n <= USER_END,
    ensures
        pages_freed(s, cr3, start, n).wf(),
        pages_freed(s, cr3, start, n).ram.len() == s.ram.len(),
        space_ok(pages_freed(s, cr3, start, n), cr3),
    decreases n,
{
    if n > 0 {
        law_pages_freed(s, cr3, start, (n - 1) as nat);
        law_page_freed(
            pages_freed(s, cr3, start, (n - 1) as nat),
            cr3,
            (start + 4096 * (n - 1)) as u64,
        );
    }
}

/// Unmapping memory keeps the address space in order.
pub proof fn law_unmapping_keeps_space(t: Table, s: Mem, cr3: u64, addr: u64, len: u64)
    requires
        s.wf(),
        space_ok(s, cr3),
    ensures
        space_ok(unmapping(t, s, cr3, addr, len).1, cr3),
{
    if unmapping(t, s, cr3, addr, len).2 is Ok {
        let end = crate::vm::range_end(addr, len)->Ok_0;
        law_pages_freed(s, cr3, addr as int, ((end - addr) / 4096) as nat);
    }
}

/// Mapping memory keeps the address space in order.
pub proof fn law_mapping_keeps_space(
    t: Table,
    s: Mem,
    cr3: u64,
    addr: u64,
    len: u64,
    prot: u64,
    map_flags: u64,
    backing: Option<FileBacking>,
    offset: u64,
)
    requires
        s.wf(),
        space_ok(s, cr3),
    ensures
        space_ok(mapping(t, s, cr3, addr, len, prot, map_flags, backing, offset).1, cr3),
{
    if mapping(t, s, cr3, addr, len, prot, map_flags, backing, offset).2 is Ok && map_flags & 0x10 != 0 {
        let end = crate::vm::range_end(addr, len)->Ok_0;
        law_pages_freed(s, cr3, addr as int, ((end - addr) / 4096) as nat);
    }
}

proof fn lemma_page_flags(prot: u64, nx: bool)
    ensures
        page_flags(prot, nx) & ADDR_MASK == 0,
{
    assert(forall|a: u64, b: u64, c: u64|
        (a == 0 || a == 4) && (b == 0 || b == 2) && (c == 0 || c == 0x8000_0000_0000_0000) ==> #[trigger] (a | b | c)
            & 0x000F_FFFF_FFFF_F000u64 == 0) by (bit_vector);
}

proof fn lemma_reflagged(s: Mem, cr3: u64, v: u64, flags: u64)
    requires
        s.wf(),
        space_ok(s, cr3),
        flags & ADDR_MASK == 0,
    ensures
        ({
            let s1 = Mem { ram: reflagged(s.ram, cr3, v, flags), ..s };
            s1.wf() && s1.ram.len() == s.ram.len() && space_ok(s1, cr3)
        }),
{
    reveal(space_ok);
    reveal(data_apart);
    let s1 = Mem { ram: reflagged(s.ram, cr3, v, flags), ..s };
    if let Some(e) = leaf_of(s.ram, cr3, v) {
        let t = table_at(s.ram, cr3, v, 3)->0;
        lemma_target_aligned(e);
        crate::paging::lemma_aligned(target(e));
        lemma_entries(target(e), flags, 0);
        lemma_leaf_write(s.ram, cr3, v, leaf(target(e), flags));
        assert(path_ok(s.ram, cr3, v));
        assert forall|w: u64| path_used(s1, cr3, w) by {
            assert(path_used(s, cr3, w));
        }
        assert forall|q: u64| is_table(s1.ram, cr3, q) implies is_table(s.ram, cr3, q) by {
            let (w, n) = choose|w: u64, n: int| 0 <= n <= 3 && #[trigger] table_at(s1.ram, cr3, w, n) == Some(q);
            assert(table_at(s.ram, cr3, w, n) == Some(q));
        }
        assert forall|w: u64| #[trigger] leaf_of(s1.ram, cr3, w) is Some <==> leaf_of(s.ram, cr3, w) is Some by {
            if same_page(v, w) {
                lemma_same_leaf(s.ram, cr3, v, w);
            }
        }
        assert forall|w: u64| (#[trigger] leaf_of(s1.ram, cr3, w)) is Some implies target(
            leaf_of(s1.ram, cr3, w)->0,
        ) == target(leaf_of(s.ram, cr3, w)->0) by {
            if same_page(v, w) {
                lemma_same_leaf(s.ram, cr3, v, w);
            }
        }
        assert forall|w: u64| lower(w) implies (#[trigger] leaf_of(s1.ram, cr3, w) matches Some(x) ==> data_frame(
            s1,
            cr3,
            target(x),
        )) by {
            assert(leaf_of(s.ram, cr3, w) is Some ==> data_frame(s, cr3, target(leaf_of(s.ram, cr3, w)->0)));
        }
    }
}

proof fn lemma_reflagged_pages(s: Mem, cr3: u64, addr: int, n: nat, flags: u64)
    requires
        s.wf(),
        space_ok(s, cr3),
        flags & ADDR_MASK == 0,
    ensures
        ({
            let s1 = Mem { ram: reflagged_pages(s.ram, cr3, addr, n, flags), ..s };
            s1.wf() && s1.ram.len() == s.ram.len() && space_ok(s1, cr3)
        }),
    decreases n,
{
    if n > 0 {
        lemma_reflagged_pages(s, cr3, addr, (n - 1) as nat, flags);
        lemma_reflagged(
            Mem { ram: reflagged_pages(s.ram, cr3, addr, (n - 1) as nat, flags), ..s },
            cr3,
            (addr + 4096 * (n - 1)) as u64,
            flags,
        );
    }
}

/// Changing protection keeps the address space in order.
pub proof fn law_protecting_keeps_space(
    t: Table,
    s: Mem,
    cr3: u64,
    nx: bool,
    addr: u64,
    len: u64,
    prot: u64,
)
    requires
        s.wf(),
        space_ok(s, cr3),
    ensures
        space_ok(protecting(t, s, cr3, nx, addr, len, prot).1, cr3),
{
    if protecting(t, s, cr3, nx, addr, len, prot).2 is Ok && len > 0 {
        let end = crate::vm::range_end(addr, len)->Ok_0;
        lemma_page_flags(prot, nx);
        lemma_reflagged_pages(s, cr3, addr as int, ((end - addr) / 4096) as nat, page_flags(prot, nx));
    }
}

/// A frame that was taken and given back again leaves an address space in
/// order.
proof fn lemma_given_back(s: Mem, s1: Mem, cr3: u64, p: u64)
    requires
        s.wf(),
        space_ok(s, cr3),
        s.frames.take().1 == Some(p),
        s1.wf(),
        tables_ok(s1.ram, cr3),
        tables_used(s1, cr3),
        s1.frames.used == s.frames.take().0.used,
        forall|w: u64| #[trigger] leaf_of(s1.ram, cr3, w) == leaf_of(s.ram, cr3, w),
        only_fresh((Mem { ram: s.ram, frames: s.frames.take().0 }), s1.ram, cr3),
    ensures
        space_ok((Mem { ram: s1.ram, frames: s1.frames.release(p) }), cr3),
        (Mem { ram: s1.ram, frames: s1.frames.release(p) }).wf(),
{
    reveal(space_ok);
    reveal(data_apart);
    reveal(only_fresh);
    lemma_taken(s);
    let s0 = Mem { ram: s.ram, frames: s.frames.take().0 };
    let s2 = Mem { ram: s1.ram, frames: s1.frames.release(p) };
    assert forall|w: u64| path_used(s2, cr3, w) by {
        assert(path_used(s1, cr3, w) && path_ok(s1.ram, cr3, w) && path_used(s, cr3, w));
        assert forall|n: int| 0 <= n <= 3 implies (#[trigger] table_at(s2.ram, cr3, w, n) matches Some(x)
            ==> not_free(s2.frames, x)) by {
            if let Some(x) = table_at(s2.ram, cr3, w, n) {
                assert(table_at(s1.ram, cr3, w, n) == Some(x));
                assert(not_free(s1.frames, x));
                if x / FRAME_SIZE == p / FRAME_SIZE {
                    assert(x == p);
                    assert(table_at(s.ram, cr3, w, n) == Some(x));
                }
            }
        }
    }
    assert forall|v: u64| lower(v) implies (#[trigger] leaf_of(s2.ram, cr3, v) matches Some(e) ==> data_frame(
        s2,
        cr3,
        target(e),
    )) by {
        assert(leaf_of(s1.ram, cr3, v) == leaf_of(s.ram, cr3, v));
        if let Some(e) = leaf_of(s.ram, cr3, v) {
            let q = target(e);
            assert(data_frame(s, cr3, q));
            lemma_not_fresh(s, cr3, v);
            assert(q / FRAME_SIZE != p / FRAME_SIZE);
            if is_table(s2.ram, cr3, q) {
                let (w, n) = choose|w: u64, n: int|
                    0 <= n <= 3 && #[trigger] table_at(s2.ram, cr3, w, n) == Some(q);
                assert(table_at(s1.ram, cr3, w, n) == Some(q));
                assert(not_free(s0.frames, q));
                assert(table_at(s.ram, cr3, w, n) == Some(q));
            }
        }
    }
    assert forall|v: u64, w: u64|
        lower(v) && lower(w) && (#[trigger] leaf_of(s2.ram, cr3, v)) is Some && (#[trigger] leaf_of(
            s2.ram,
            cr3,
            w,
        )) is Some && target(leaf_of(s2.ram, cr3, v)->0) == target(leaf_of(s2.ram, cr3, w)->0) implies same_page(
        v,
        w,
    ) by {
        assert(leaf_of(s1.ram, cr3, v) == leaf_of(s.ram, cr3, v));
        assert(leaf_of(s1.ram, cr3, w) == leaf_of(s.ram, cr3, w));
    }
}

/// Handling a fault keeps the address space in order, whether it succeeds or
/// fails, and a fault that it handles leaves the page mapped with a frame of
/// its own that holds the page's contents.
pub proof fn law_fault(
    t: Table,
    s: Mem,
    d: Image,
    layout: Option<Layout>,
    cr3: u64,
    nx: bool,
    addr: u64,
    error: u64,
)
    requires
        s.wf(),
        space_ok(s, cr3),
        image_ok(d),
        crate::vm::table_ok(t),
    ensures
        ({
            let (t1, s1, ok) = faulted(t, s, d, layout, cr3, nx, addr, error);
            let page = (addr - addr % 4096) as u64;
            &&& s1.wf()
            &&& space_ok(s1, cr3)
            &&& ok ==> {
                let r = t[region_from(t, cr3, page, 0)->0]->0;
                let contents = page_contents(r.backing, d, layout, r.offset + (page - r.start)).1;
                &&& translation(s.ram, cr3, page) is None
                &&& contents is Ok
                &&& forall|x: u64|
                    #![trigger vbyte(s1.ram, cr3, x)]
                    lower(x) ==> vbyte(s1.ram, cr3, x) == if same_page(page, x) {
                        Some((contents->Ok_0)[(x % 4096) as int])
                    } else {
                        vbyte(s.ram, cr3, x)
                    }
            }
        }),
{
    let page = (addr - addr % 4096) as u64;
    let (t1, s1, ok) = faulted(t, s, d, layout, cr3, nx, addr, error);
    if let Some(i) = region_from(t, cr3, page, 0) {
        crate::vm::lemma_region_from(t, cr3, page, 0);
        let r = t[i]->0;
        let file_offset = r.offset + (page - r.start);
        let (backing, contents) = page_contents(r.backing, d, layout, file_offset);
        if let Some(p) = s.frames.take().1 {
            lemma_taken(s);
            lemma_page_flags(r.prot, nx);
            let flags = page_flags(r.prot, nx);
            let frames = s.frames.take().0;
            assert(frames.release(p).used =~= s.frames.used);
            if s1.ram == s.ram && s1.frames == frames.release(p) {
                lemma_same_used(s, s1, cr3);
            }
            if let Ok(bytes) = contents {
                assert(bytes.len() == 4096) by {
                    if let Some(b) = r.backing {
                        crate::task::lemma_backing_len(b, d, layout, file_offset, Seq::new(4096, |i: int| 0u8));
                    }
                }
                let filled = Mem { ram: with_bytes(s.ram, p as int, bytes), frames };
                lemma_filled(s, cr3, bytes);
                let (s2, did) = tried(filled, cr3, page, p, flags);
                lemma_pages_known(filled, cr3);
                law_try_map(filled, cr3, page, p, flags);
                if did {
                    law_tried_is_mapped(filled, cr3, page, p, flags);
                    law_placed(s, cr3, page, flags, bytes, "");
                    assert(placed(s, cr3, page, flags, bytes, "").0 == s2);
                    assert(leaf_of(filled.ram, cr3, page) == leaf_of(s.ram, cr3, page));
                } else {
                    lemma_tried_tables(filled, cr3, page, p, flags);
                    assert(only_fresh(Mem { ram: s.ram, frames }, s2.ram, cr3)) by {
                        reveal(only_fresh);
                        reveal(space_ok);
                        assert forall|w: u64, n: int| 0 <= n <= 3 implies (#[trigger] table_at(
                            s2.ram,
                            cr3,
                            w,
                            n,
                        ) matches Some(x) ==> table_at(s.ram, cr3, w, n) == Some(x) || !not_free(frames, x)) by {
                            crate::space::lemma_unfilled_tables(s, p, bytes, cr3, w, n);
                        }
                    }
                    assert forall|w: u64| #[trigger] leaf_of(s2.ram, cr3, w) == leaf_of(s.ram, cr3, w) by {
                        assert(leaf_of(filled.ram, cr3, w) == leaf_of(s.ram, cr3, w));
                    }
                    lemma_given_back(s, s2, cr3, p);
                }
            }
        }
    }
}

proof fn lemma_same_used(s: Mem, s1: Mem, cr3: u64)
    requires
        s.wf(),
        space_ok(s, cr3),
        s1.ram == s.ram,
        s1.frames.used == s.frames.used,
        0 <= s1.frames.hint <= s.frames.used.len(),
    ensures
        s1.wf(),
        space_ok(s1, cr3),
{
    reveal(space_ok);
    reveal(data_apart);
    assert forall|w: u64| path_used(s1, cr3, w) by {
        assert(path_used(s, cr3, w));
    }
    assert forall|v: u64| lower(v) implies (#[trigger] leaf_of(s1.ram, cr3, v) matches Some(e) ==> data_frame(
        s1,
        cr3,
        target(e),
    )) by {
        assert(leaf_of(s.ram, cr3, v) matches Some(e) ==> data_frame(s, cr3, target(e)));
    }
}


// ---- Privacy ----

/// Giving up a page of one address space changes nothing that programs in
/// another one see.
#[verifier::spinoff_prover]
#[verifier::rlimit(40)]
proof fn lemma_page_freed_private(s: Mem, a: u64, v: u64, b: u64)
    requires
        s.wf(),
        space_ok(s, a),
        space_ok(s, b),
        separate(s.ram, a, b),
        v < USER_END,
    ensures
        space_ok(page_freed(s, a, v), b),
        separate(page_freed(s, a, v).ram, a, b),
        same_view(s.ram, page_freed(s, a, v).ram, b),
{
    law_page_freed(s, a, v);
    lemma_lower(v);
    reveal(separate);
    let s1 = page_freed(s, a, v);
    if let Some(e) = leaf_of(s.ram, a, v) {
        reveal(space_ok);
        reveal(data_apart);
        let p = target(e);
        let t = table_at(s.ram, a, v, 3)->0;
        lemma_leaf_write(s.ram, a, v, 0);
        assert(path_ok(s.ram, a, v));
        assert(data_frame(s, a, p));
        assert(alien(s.ram, b, p));
        assert(alien(s.ram, b, t));
        assert(s1.ram == s.ram.update(slot(t, index(v, 3)), 0));
        assert forall|q: u64|
            #![trigger not_free(s.frames, q)]
            in_ram(s.ram, q) && not_free(s.frames, q) && !alien(s.ram, b, q) implies crate::space::frame_same(
            s.ram,
            s1.ram,
            q,
        ) && not_free(s1.frames, q) by {
            assert(q != t && q != p);
            assert(q / FRAME_SIZE != p / FRAME_SIZE);
        }
        lemma_kept(s, s1, b);
        assert forall|w: u64, n: int| lower(w) && 0 <= n <= 3 implies (#[trigger] table_at(
            s1.ram,
            a,
            w,
            n,
        ) matches Some(x) ==> alien(s1.ram, b, x)) by {
            assert(table_at(s1.ram, a, w, n) == table_at(s.ram, a, w, n));
            if let Some(x) = table_at(s.ram, a, w, n) {
                assert(alien(s.ram, b, x));
                assert(alien(s1.ram, b, x));
            }
        }
        assert forall|w: u64| lower(w) implies (#[trigger] leaf_of(s1.ram, a, w) matches Some(x) ==> alien(
            s1.ram,
            b,
            target(x),
        )) by {
            if let Some(x) = leaf_of(s1.ram, a, w) {
                assert(!same_page(v, w));
                assert(leaf_of(s.ram, a, w) == Some(x));
                assert(alien(s.ram, b, target(x)));
                assert(alien(s1.ram, b, target(x)));
            }
        }
    }
}

proof fn lemma_pages_freed_private(s: Mem, a: u64, start: int, n: nat, b: u64)
    requires
        s.wf(),
        space_ok(s, a),
        space_ok(s, b),
        separate(s.ram, a, b),
        0 <= start,
        start + 4096 * n <= USER_END,
    ensures
        space_ok(pages_freed(s, a, start, n), b),
        separate(pages_freed(s, a, start, n).ram, a, b),
        same_view(s.ram, pages_freed(s, a, start, n).ram, b),
    decreases n,
{
    if n > 0 {
        let m = (n - 1) as nat;
        lemma_pages_freed_private(s, a, start, m, b);
        law_pages_freed(s, a, start, m);
        let s1 = pages_freed(s, a, start, m);
        lemma_page_freed_private(s1, a, (start + 4096 * m) as u64, b);
        let s2 = pages_freed(s, a, start, n);
        assert forall|w: u64| #[trigger] leaf_of(s2.ram, b, w) == leaf_of(s.ram, b, w) by {
            assert(leaf_of(s1.ram, b, w) == leaf_of(s.ram, b, w));
        }
        assert forall|x: u64| lower(x) implies #[trigger] vbyte(s2.ram, b, x) == vbyte(s.ram, b, x) by {
            assert(vbyte(s1.ram, b, x) == vbyte(s.ram, b, x));
        }
    }
}

/// Unmapping memory of one program changes nothing that programs in another
/// address space see.
pub proof fn law_unmapping_is_private(t: Table, s: Mem, a: u64, addr: u64, len: u64, b: u64)
    requires
        s.wf(),
        space_ok(s, a),
        space_ok(s, b),
        separate(s.ram, a, b),
    ensures
        space_ok(unmapping(t, s, a, addr, len).1, b),
        separate(unmapping(t, s, a, addr, len).1.ram, a, b),
        same_view(s.ram, unmapping(t, s, a, addr, len).1.ram, b),
{
    if unmapping(t, s, a, addr, len).2 is Ok {
        let end = crate::vm::range_end(addr, len)->Ok_0;
        lemma_pages_freed_private(s, a, addr as int, ((end - addr) / 4096) as nat, b);
    }
}

/// Bringing in a page of one program on a fault changes nothing that programs
/// in another address space see.
pub proof fn law_fault_is_private(
    t: Table,
    s: Mem,
    d: Image,
    layout: Option<Layout>,
    a: u64,
    nx: bool,
    addr: u64,
    error: u64,
    b: u64,
)
    requires
        s.wf(),
        space_ok(s, a),
        space_ok(s, b),
        separate(s.ram, a, b),
        image_ok(d),
        crate::vm::table_ok(t),
        faulted(t, s, d, layout, a, nx, addr, error).2,
    ensures
        ({
            let s1 = faulted(t, s, d, layout, a, nx, addr, error).1;
            space_ok(s1, b) && separate(s1.ram, a, b) && same_view(s.ram, s1.ram, b)
        }),
{
    let page = (addr - addr % 4096) as u64;
    let i = region_from(t, a, page, 0)->0;
    crate::vm::lemma_region_from(t, a, page, 0);
    let r = t[i]->0;
    let file_offset = r.offset + (page - r.start);
    let bytes = page_contents(r.backing, d, layout, file_offset).1->Ok_0;
    let p = s.frames.take().1->0;
    lemma_taken(s);
    lemma_page_flags(r.prot, nx);
    let flags = page_flags(r.prot, nx);
    assert(bytes.len() == 4096) by {
        if let Some(x) = r.backing {
            crate::task::lemma_backing_len(x, d, layout, file_offset, Seq::new(4096, |i: int| 0u8));
        }
    }
    let filled = Mem { ram: with_bytes(s.ram, p as int, bytes), frames: s.frames.take().0 };
    lemma_filled(s, a, bytes);
    lemma_pages_known(filled, a);
    law_tried_is_mapped(filled, a, page, p, flags);
    lemma_lower(page);
    law_placing_is_private(s, a, page, flags, bytes, "", b);
}

/// Mapping memory for one program changes nothing that programs in another
/// address space see.
pub proof fn law_mapping_is_private(
    t: Table,
    s: Mem,
    a: u64,
    addr: u64,
    len: u64,
    prot: u64,
    map_flags: u64,
    backing: Option<FileBacking>,
    offset: u64,
    b: u64,
)
    requires
        s.wf(),
        space_ok(s, a),
        space_ok(s, b),
        separate(s.ram, a, b),
    ensures
        ({
            let s1 = mapping(t, s, a, addr, len, prot, map_flags, backing, offset).1;
            space_ok(s1, b) && separate(s1.ram, a, b) && same_view(s.ram, s1.ram, b)
        }),
{
    if mapping(t, s, a, addr, len, prot, map_flags, backing, offset).2 is Ok && map_flags & 0x10 != 0 {
        let end = crate::vm::range_end(addr, len)->Ok_0;
        lemma_pages_freed_private(s, a, addr as int, ((end - addr) / 4096) as nat, b);
    }
}

#[verifier::spinoff_prover]
#[verifier::rlimit(40)]
proof fn lemma_reflagged_private(s: Mem, a: u64, v: u64, flags: u64, b: u64)
    requires
        s.wf(),
        space_ok(s, a),
        space_ok(s, b),
        separate(s.ram, a, b),
        flags & ADDR_MASK == 0,
        lower(v),
    ensures
        ({
            let s1 = Mem { ram: reflagged(s.ram, a, v, flags), ..s };
            space_ok(s1, b) && separate(s1.ram, a, b) && same_view(s.ram, s1.ram, b)
        }),
{
    lemma_reflagged(s, a, v, flags);
    reveal(separate);
    let s1 = Mem { ram: reflagged(s.ram, a, v, flags), ..s };
    if let Some(e) = leaf_of(s.ram, a, v) {
        reveal(space_ok);
        let t = table_at(s.ram, a, v, 3)->0;
        lemma_target_aligned(e);
        crate::paging::lemma_aligned(target(e));
        lemma_entries(target(e), flags, 0);
        lemma_leaf_write(s.ram, a, v, leaf(target(e), flags));
        assert(path_ok(s.ram, a, v));
        assert(alien(s.ram, b, t));
        assert forall|q: u64|
            #![trigger not_free(s.frames, q)]
            in_ram(s.ram, q) && not_free(s.frames, q) && !alien(s.ram, b, q) implies crate::space::frame_same(
            s.ram,
            s1.ram,
            q,
        ) && not_free(s1.frames, q) by {
            assert(q != t);
        }
        lemma_kept(s, s1, b);
        assert forall|w: u64, n: int| lower(w) && 0 <= n <= 3 implies (#[trigger] table_at(
            s1.ram,
            a,
            w,
            n,
        ) matches Some(x) ==> alien(s1.ram, b, x)) by {
            assert(table_at(s1.ram, a, w, n) == table_at(s.ram, a, w, n));
            if let Some(x) = table_at(s.ram, a, w, n) {
                assert(alien(s.ram, b, x));
                assert(alien(s1.ram, b, x));
            }
        }
        assert forall|w: u64| lower(w) implies (#[trigger] leaf_of(s1.ram, a, w) matches Some(x) ==> alien(
            s1.ram,
            b,
            target(x),
        )) by {
            if same_page(v, w) {
                lemma_same_leaf(s.ram, a, v, w);
            }
            if let Some(x) = leaf_of(s1.ram, a, w) {
                let y = leaf_of(s.ram, a, w)->0;
                assert(target(x) == target(y));
                assert(alien(s.ram, b, target(y)));
                assert(alien(s1.ram, b, target(y)));
            }
        }
    }
}

proof fn lemma_reflagged_pages_private(s: Mem, a: u64, addr: int, n: nat, flags: u64, b: u64)
    requires
        s.wf(),
        space_ok(s, a),
        space_ok(s, b),
        separate(s.ram, a, b),
        flags & ADDR_MASK == 0,
        0 <= addr,
        addr + 4096 * n <= USER_END,
    ensures
        ({
            let s1 = Mem { ram: reflagged_pages(s.ram, a, addr, n, flags), ..s };
            space_ok(s1, b) && separate(s1.ram, a, b) && same_view(s.ram, s1.ram, b)
        }),
    decreases n,
{
    if n > 0 {
        let m = (n - 1) as nat;
        lemma_reflagged_pages_private(s, a, addr, m, flags, b);
        lemma_reflagged_pages(s, a, addr, m, flags);
        let s1 = Mem { ram: reflagged_pages(s.ram, a, addr, m, flags), ..s };
        let v = (addr + 4096 * m) as u64;
        lemma_lower(v);
        lemma_reflagged_private(s1, a, v, flags, b);
        let s2 = Mem { ram: reflagged_pages(s.ram, a, addr, n, flags), ..s };
        assert forall|w: u64| #[trigger] leaf_of(s2.ram, b, w) == leaf_of(s.ram, b, w) by {
            assert(leaf_of(s1.ram, b, w) == leaf_of(s.ram, b, w));
        }
        assert forall|x: u64| lower(x) implies #[trigger] vbyte(s2.ram, b, x) == vbyte(s.ram, b, x) by {
            assert(vbyte(s1.ram, b, x) == vbyte(s.ram, b, x));
        }
    }
}

/// Changing the protection of one program's memory changes nothing that
/// programs in another address space see.
pub proof fn law_protecting_is_private(
    t: Table,
    s: Mem,
    a: u64,
    nx: bool,
    addr: u64,
    len: u64,
    prot: u64,
    b: u64,
)
    requires
        s.wf(),
        space_ok(s, a),
        space_ok(s, b),
        separate(s.ram, a, b),
    ensures
        ({
            let s1 = protecting(t, s, a, nx, addr, len, prot).1;
            space_ok(s1, b) && separate(s1.ram, a, b) && same_view(s.ram, s1.ram, b)
        }),
{
    if protecting(t, s, a, nx, addr, len, prot).2 is Ok && len > 0 {
        let end = crate::vm::range_end(addr, len)->Ok_0;
        lemma_page_flags(prot, nx);
        lemma_reflagged_pages_private(s, a, addr as int, ((end - addr) / 4096) as nat, page_flags(prot, nx), b);
    }
}

/// A frame that belongs to the lower half of an address space is one of its
/// tables on the way to some lower address, or the frame of a lower page.
proof fn lemma_owned(ram: Seq<u64>, count: nat, a: u64, f: int) -> (r: (u64, int))
    requires
        owned(ram, a, 4, 256, f),
        known(ram, count, a, 4, 256),
    ensures
        lower(r.0),
        r.1 <= 3 ==> 0 <= r.1 && (table_at(ram, a, r.0, r.1) matches Some(t) && f == t / FRAME_SIZE),
        r.1 > 3 ==> (leaf_of(ram, a, r.0) matches Some(e) && f == target(e) / FRAME_SIZE),
{
    reveal_with_fuel(owned, 6);
    reveal_with_fuel(known, 6);
    reveal_with_fuel(table_at, 5);
    lemma_composed(0, 0, 0, 0);
    if f == a / FRAME_SIZE {
        (composed(0, 0, 0, 0), 0)
    } else {
        let i0 = choose|i: int|
            0 <= i < 256 && present(#[trigger] entry(ram, a, i)) && owned(ram, target(entry(ram, a, i)), 3, 512, f);
        let t1 = target(entry(ram, a, i0));
        lemma_composed(i0, 0, 0, 0);
        if f == t1 / FRAME_SIZE {
            (composed(i0, 0, 0, 0), 1)
        } else {
            let i1 = choose|i: int|
                0 <= i < 512 && present(#[trigger] entry(ram, t1, i)) && owned(
                    ram,
                    target(entry(ram, t1, i)),
                    2,
                    512,
                    f,
                );
            let t2 = target(entry(ram, t1, i1));
            lemma_composed(i0, i1, 0, 0);
            if f == t2 / FRAME_SIZE {
                (composed(i0, i1, 0, 0), 2)
            } else {
                let i2 = choose|i: int|
                    0 <= i < 512 && present(#[trigger] entry(ram, t2, i)) && owned(
                        ram,
                        target(entry(ram, t2, i)),
                        1,
                        512,
                        f,
                    );
                let t3 = target(entry(ram, t2, i2));
                lemma_composed(i0, i1, i2, 0);
                if f == t3 / FRAME_SIZE {
                    (composed(i0, i1, i2, 0), 3)
                } else {
                    let i3 = choose|i: int|
                        0 <= i < 512 && present(#[trigger] entry(ram, t3, i)) && owned(
                            ram,
                            target(entry(ram, t3, i)),
                            0,
                            512,
                            f,
                        );
                    lemma_composed(i0, i1, i2, i3);
                    (composed(i0, i1, i2, i3), 4)
                }
            }
        }
    }
}

/// Tearing down one address space changes nothing that programs in another
/// one see, and frees nothing that means something to it.
pub proof fn law_teardown_is_private(s: Mem, a: u64, b: u64)
    requires
        s.wf(),
        space_ok(s, a),
        space_ok(s, b),
        separate(s.ram, a, b),
        known(s.ram, s.frames.used.len(), a, 4, 256),
    ensures
        ({
            let s1 = Mem { frames: without_tree(s.frames, s.ram, a, 4, 256), ..s };
            s1.wf() && space_ok(s1, b) && same_view(s.ram, s1.ram, b)
        }),
{
    reveal(space_ok);
    reveal(data_apart);
    reveal(separate);
    let s1 = Mem { frames: without_tree(s.frames, s.ram, a, 4, 256), ..s };
    assert forall|q: u64|
        #![trigger not_free(s.frames, q)]
        in_ram(s.ram, q) && not_free(s.frames, q) && !alien(s.ram, b, q) implies crate::space::frame_same(
        s.ram,
        s1.ram,
        q,
    ) && not_free(s1.frames, q) by {
        let f = (q / FRAME_SIZE) as int;
        if owned(s.ram, a, 4, 256, f) {
            let (w, n) = lemma_owned(s.ram, s.frames.used.len(), a, f);
            assert(path_ok(s.ram, a, w));
            if n <= 3 {
                let t = table_at(s.ram, a, w, n)->0;
                assert(alien(s.ram, b, t));
                assert(in_ram(s.ram, t));
                assert(t == q);
            } else {
                let e = leaf_of(s.ram, a, w)->0;
                assert(data_frame(s, a, target(e)));
                assert(alien(s.ram, b, target(e)));
                assert(target(e) == q);
            }
        }
    }
    lemma_kept(s, s1, b);
}
} // verus!
