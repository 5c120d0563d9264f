//! Address spaces are isolated from each other: what is done in the lower
//! half of one changes nothing that a program in another one sees.
use crate::paging::{
    entry, ensured, ensured_to, not_free, law_map, leaf, leaf_of, lemma_ensured_all, lemma_ensured_to, lemma_entries,
    lemma_leaf_write, lemma_link_table, lemma_taken, lemma_tree_kept, mapped, path_ok, path_used, present, slot,
    table_at, tables_ok, tables_used, target, with_root, Mem, ADDR_MASK,
};
use crate::ram::{in_ram, with_byte, with_bytes, zeroed};
use crate::space::{
    data_apart, data_frame, frame_same, is_table, law_new_space_ok, law_placed, law_poked, lemma_filled,
    lemma_frame_bytes, lemma_lower, lemma_not_fresh, lower, placed, poked, space_ok, vbyte,
};
use crate::vaddr::{index, lemma_index, same_page};
use vstd::prelude::*;

verus! {

broadcast use lemma_index;

/// Whether a frame means nothing to the address space `b`: it is none of its
/// tables, and no page of its lower half is mapped to it.
pub open spec fn alien(ram: Seq<u64>, b: u64, q: u64) -> bool {
    &&& !is_table(ram, b, q)
    &&& forall|v: u64| lower(v) ==> (#[trigger] leaf_of(ram, b, v) matches Some(e) ==> target(e) != q)
}

/// Whether `q` is a table on the way to some address in the lower half.
pub open spec fn lower_table(ram: Seq<u64>, a: u64, q: u64) -> bool {
    exists|w: u64, n: int| lower(w) && 0 <= n <= 3 && #[trigger] table_at(ram, a, w, n) == Some(q)
}

/// Nothing in the lower half of `a` means anything to `b`.
#[verifier::opaque]
pub open spec fn separate(ram: Seq<u64>, a: u64, b: u64) -> bool {
    &&& forall|w: u64, n: int|
        lower(w) && 0 <= n <= 3 ==> (#[trigger] table_at(ram, a, w, n) matches Some(t) ==> alien(ram, b, t))
    &&& forall|v: u64| lower(v) ==> (#[trigger] leaf_of(ram, a, v) matches Some(e) ==> alien(ram, b, target(e)))
}

/// An address space looks the same before and after, to the programs in it.
pub open spec fn same_view(ram: Seq<u64>, after: Seq<u64>, b: u64) -> bool {
    &&& forall|w: u64| #[trigger] leaf_of(after, b, w) == leaf_of(ram, b, w)
    &&& forall|x: u64| lower(x) ==> #[trigger] vbyte(after, b, x) == vbyte(ram, b, x)
}

/// Memory that differs only in frames that mean nothing to `b`.
pub(crate) open spec fn kept_for(s: Mem, s1: Mem, b: u64) -> bool {
    &&& s1.ram.len() == s.ram.len()
    &&& s1.frames.used.len() == s.frames.used.len()
    &&& forall|q: u64|
        #![trigger not_free(s.frames, q)]
        in_ram(s.ram, q) && not_free(s.frames, q) && !alien(s.ram, b, q) ==> frame_same(s.ram, s1.ram, q)
            && not_free(s1.frames, q)
}

proof fn lemma_kept_table(s: Mem, s1: Mem, b: u64, w: u64, n: int)
    requires
        tables_ok(s.ram, b),
        tables_used(s, b),
        kept_for(s, s1, b),
        0 <= n <= 3,
    ensures
        table_at(s1.ram, b, w, n) == table_at(s.ram, b, w, n),
        n == 3 ==> leaf_of(s1.ram, b, w) == leaf_of(s.ram, b, w),
    decreases n,
{
    assert(path_ok(s.ram, b, w) && path_used(s, b, w));
    if n > 0 {
        lemma_kept_table(s, s1, b, w, n - 1);
        if let Some(t) = table_at(s.ram, b, w, n - 1) {
            assert(in_ram(s.ram, t) && not_free(s.frames, t));
            assert(is_table(s.ram, b, t));
            assert(entry(s1.ram, t, index(w, n - 1)) == entry(s.ram, t, index(w, n - 1)));
        }
    }
    if n == 3 {
        if let Some(t) = table_at(s.ram, b, w, 3) {
            assert(in_ram(s.ram, t) && not_free(s.frames, t));
            assert(is_table(s.ram, b, t));
            assert(entry(s1.ram, t, index(w, 3)) == entry(s.ram, t, index(w, 3)));
        }
    }
}

/// What means something to `b` being kept, `b` is in order as before and
/// looks the same.
pub(crate) proof fn lemma_kept(s: Mem, s1: Mem, b: u64)
    requires
        s.wf(),
        s1.wf(),
        space_ok(s, b),
        kept_for(s, s1, b),
    ensures
        space_ok(s1, b),
        same_view(s.ram, s1.ram, b),
        forall|w: u64, n: int|
            0 <= n <= 3 ==> #[trigger] table_at(s1.ram, b, w, n) == table_at(s.ram, b, w, n),
        forall|q: u64| alien(s.ram, b, q) <==> #[trigger] alien(s1.ram, b, q),
{
    reveal(space_ok);
    reveal(data_apart);
    assert forall|w: u64, n: int| 0 <= n <= 3 implies #[trigger] table_at(s1.ram, b, w, n) == table_at(
        s.ram,
        b,
        w,
        n,
    ) by {
        lemma_kept_table(s, s1, b, w, n);
    }
    assert forall|w: u64| #[trigger] leaf_of(s1.ram, b, w) == leaf_of(s.ram, b, w) by {
        lemma_kept_table(s, s1, b, w, 3);
    }
    lemma_tree_kept(s.ram, s1.ram, b);
    assert forall|w: u64| path_used(s1, b, w) by {
        assert(path_used(s, b, w) && path_ok(s.ram, b, w));
        assert forall|n: int| 0 <= n <= 3 implies (#[trigger] table_at(s1.ram, b, w, n) matches Some(t) ==> not_free(
            s1.frames,
            t,
        )) by {
            assert(table_at(s1.ram, b, w, n) == table_at(s.ram, b, w, n));
            if let Some(t) = table_at(s.ram, b, w, n) {
                assert(is_table(s.ram, b, t));
                assert(not_free(s.frames, t));
            }
        }
    }
    assert forall|q: u64| is_table(s.ram, b, q) <==> #[trigger] is_table(s1.ram, b, q) by {
        if is_table(s.ram, b, q) {
            let (w, n) = choose|w: u64, n: int| 0 <= n <= 3 && #[trigger] table_at(s.ram, b, w, n) == Some(q);
            assert(table_at(s1.ram, b, w, n) == Some(q));
        }
        if is_table(s1.ram, b, q) {
            let (w, n) = choose|w: u64, n: int| 0 <= n <= 3 && #[trigger] table_at(s1.ram, b, w, n) == Some(q);
            assert(table_at(s.ram, b, w, n) == Some(q));
        }
    }
    assert forall|v: u64| lower(v) implies (#[trigger] leaf_of(s1.ram, b, v) matches Some(e) ==> data_frame(
        s1,
        b,
        target(e),
    )) by {
        assert(leaf_of(s1.ram, b, v) == leaf_of(s.ram, b, v));
        if let Some(e) = leaf_of(s.ram, b, v) {
            assert(data_frame(s, b, target(e)));
            assert(!alien(s.ram, b, target(e)));
            assert(not_free(s.frames, target(e)));
        }
    }
    assert forall|v: u64, w: u64|
        lower(v) && lower(w) && (#[trigger] leaf_of(s1.ram, b, v)) is Some && (#[trigger] leaf_of(s1.ram, b, w)) is Some
            && target(leaf_of(s1.ram, b, v)->0) == target(leaf_of(s1.ram, b, w)->0) implies same_page(v, w) by {
        assert(leaf_of(s1.ram, b, v) == leaf_of(s.ram, b, v));
        assert(leaf_of(s1.ram, b, w) == leaf_of(s.ram, b, w));
    }
    assert forall|x: u64| lower(x) implies #[trigger] vbyte(s1.ram, b, x) == vbyte(s.ram, b, x) by {
        assert(leaf_of(s1.ram, b, x) == leaf_of(s.ram, b, x));
        if let Some(e) = leaf_of(s.ram, b, x) {
            assert(data_frame(s, b, target(e)));
            assert(!alien(s.ram, b, target(e)));
            assert(not_free(s.frames, target(e)));
            lemma_frame_bytes(s.ram, s1.ram, target(e), (x % 4096) as int);
        }
    }
    assert forall|q: u64| alien(s.ram, b, q) <==> #[trigger] alien(s1.ram, b, q) by {
        assert(is_table(s.ram, b, q) <==> is_table(s1.ram, b, q));
        if alien(s.ram, b, q) {
            assert forall|v: u64| lower(v) implies (#[trigger] leaf_of(s1.ram, b, v) matches Some(e) ==> target(e)
                != q) by {
                assert(leaf_of(s1.ram, b, v) == leaf_of(s.ram, b, v));
            }
        }
        if alien(s1.ram, b, q) {
            assert forall|v: u64| lower(v) implies (#[trigger] leaf_of(s.ram, b, v) matches Some(e) ==> target(e)
                != q) by {
                assert(leaf_of(s1.ram, b, v) == leaf_of(s.ram, b, v));
            }
        }
    }
}

/// Adding tables on the way to an address in the lower half touches fresh
/// frames and tables of the lower half only.
#[verifier::spinoff_prover]
proof fn lemma_lower_kept(s: Mem, a: u64, virt: u64, level: int, q: u64)
    requires
        s.wf(),
        tables_ok(s.ram, a),
        tables_used(s, a),
        lower(virt),
        0 <= level <= 3,
        ensured_to(s, a, virt, level) is Some,
        in_ram(s.ram, q),
        not_free(s.frames, q),
        !lower_table(s.ram, a, q),
    ensures
        ({
            let (s1, _) = ensured_to(s, a, virt, level)->0;
            &&& frame_same(s.ram, s1.ram, q)
            &&& s1.frames.used.len() == s.frames.used.len()
            &&& not_free(s1.frames, q)
            &&& !lower_table(s1.ram, a, q)
        }),
    decreases level,
{
    if level > 0 {
        lemma_ensured_all(s, a, virt, level - 1, level);
        lemma_lower_kept(s, a, virt, level - 1, q);
        lemma_ensured_to(s, a, virt, level - 1);
        let (s0, t) = ensured_to(s, a, virt, level - 1)->0;
        let i = index(virt, level - 1);
        assert(path_ok(s0.ram, a, virt));
        if !present(entry(s0.ram, t, i)) {
            lemma_taken(s0);
            let p = s0.frames.take().1->0;
            let s1 = (ensured(s0, t, i)->0).0;
            assert(t != q);
            assert(p != q);
            assert forall|k: int| 0 <= k < 512 implies #[trigger] entry(s1.ram, q, k) == entry(s.ram, q, k) by {
                assert(entry(s0.ram, q, k) == entry(s.ram, q, k));
                assert(slot(q, k) != slot(t, i));
                assert(entry(zeroed(s0.ram, p), q, k) == entry(s0.ram, q, k));
            }
            assert forall|w: u64, n: int| lower(w) && 0 <= n <= 3 implies #[trigger] table_at(s1.ram, a, w, n) != Some(
                q,
            ) by {
                lemma_link_table(s0, a, virt, level - 1, w, n);
                assert(table_at(s0.ram, a, w, n) != Some(q));
            }
        }
    }
}

proof fn lemma_lower_mapped(s: Mem, a: u64, virt: u64, phys: u64, flags: u64, q: u64)
    requires
        s.wf(),
        tables_ok(s.ram, a),
        tables_used(s, a),
        lower(virt),
        mapped(s, a, virt, phys, flags) is Some,
        in_ram(s.ram, q),
        not_free(s.frames, q),
        !lower_table(s.ram, a, q),
    ensures
        ({
            let s1 = mapped(s, a, virt, phys, flags)->0;
            &&& frame_same(s.ram, s1.ram, q)
            &&& s1.frames.used.len() == s.frames.used.len()
            &&& not_free(s1.frames, q)
            &&& !lower_table(s1.ram, a, q)
        }),
{
    lemma_lower_kept(s, a, virt, 3, q);
    lemma_ensured_to(s, a, virt, 3);
    let (s1, t) = ensured_to(s, a, virt, 3)->0;
    lemma_leaf_write(s1.ram, a, virt, leaf(phys, flags));
    let s2 = mapped(s, a, virt, phys, flags)->0;
    assert(path_ok(s1.ram, a, virt));
    assert(t != q);
    assert forall|k: int| 0 <= k < 512 implies #[trigger] entry(s2.ram, q, k) == entry(s.ram, q, k) by {
        assert(entry(s1.ram, q, k) == entry(s.ram, q, k));
        assert(slot(q, k) != slot(t, index(virt, 3)));
    }
    assert forall|w: u64, n: int| lower(w) && 0 <= n <= 3 implies #[trigger] table_at(s2.ram, a, w, n) != Some(
        q,
    ) by {
        assert(table_at(s1.ram, a, w, n) != Some(q));
    }
}

/// A frame of the lower half of `a` that is no table there any more would
/// have to be fresh.
proof fn lemma_mapped_apart(s: Mem, a: u64, virt: u64, p: u64, flags: u64, b: u64)
    requires
        s.wf(),
        space_ok(s, a),
        space_ok(s, b),
        lower(virt),
        flags & ADDR_MASK == 0,
        p & !ADDR_MASK == 0,
        in_ram(s.ram, p),
        not_free(s.frames, p),
        alien(s.ram, b, p),
        separate(s.ram, a, b),
        mapped(s, a, virt, p, flags) is Some,
    ensures
        ({
            let s1 = mapped(s, a, virt, p, flags)->0;
            &&& space_ok(s1, b)
            &&& separate(s1.ram, a, b)
            &&& same_view(s.ram, s1.ram, b)
        }),
{
    let s1 = mapped(s, a, virt, p, flags)->0;
    reveal(space_ok);
    reveal(data_apart);
    reveal(separate);
    law_map(s, a, virt, p, flags);
    lemma_entries(p, flags, 0);
    assert forall|q: u64|
        #![trigger not_free(s.frames, q)]
        in_ram(s.ram, q) && not_free(s.frames, q) && !alien(s.ram, b, q) implies frame_same(s.ram, s1.ram, q)
        && not_free(s1.frames, q) && !lower_table(s1.ram, a, q) && s1.frames.used.len() == s.frames.used.len() by {
        if lower_table(s.ram, a, q) {
            let (w, n) = choose|w: u64, n: int|
                lower(w) && 0 <= n <= 3 && #[trigger] table_at(s.ram, a, w, n) == Some(q);
            assert(alien(s.ram, b, q));
        }
        lemma_lower_mapped(s, a, virt, p, flags, q);
    }
    assert(s1.frames.used.len() == s.frames.used.len()) by {
        assert(path_ok(s.ram, b, 0) && path_used(s, b, 0));
        assert(table_at(s.ram, b, 0, 0) == Some(b));
        assert(is_table(s.ram, b, b));
        assert(not_free(s.frames, b));
    }
    assert(s1.ram.len() == s.ram.len()) by {
        assert(path_ok(s.ram, b, 0) && path_used(s, b, 0));
        assert(table_at(s.ram, b, 0, 0) == Some(b));
        assert(is_table(s.ram, b, b));
        assert(not_free(s.frames, b));
    }
    lemma_kept(s, s1, b);
    assert forall|w: u64, n: int| lower(w) && 0 <= n <= 3 implies (#[trigger] table_at(s1.ram, a, w, n) matches Some(
        t,
    ) ==> alien(s1.ram, b, t)) by {
        if let Some(t) = table_at(s1.ram, a, w, n) {
            assert(path_ok(s1.ram, a, w) && path_used(s1, a, w));
            if !alien(s1.ram, b, t) {
                assert(!alien(s.ram, b, t));
                lemma_meaningful_used(s, b, t);
                assert(not_free(s.frames, t));
                assert(lower_table(s1.ram, a, t));
            }
        }
    }
    assert forall|v: u64| lower(v) implies (#[trigger] leaf_of(s1.ram, a, v) matches Some(e) ==> alien(
        s1.ram,
        b,
        target(e),
    )) by {
        assert(leaf_of(s1.ram, a, v) == if same_page(virt, v) {
            Some(leaf(p, flags))
        } else {
            leaf_of(s.ram, a, v)
        });
        if let Some(e) = leaf_of(s1.ram, a, v) {
            assert(alien(s.ram, b, target(e)));
            assert(alien(s1.ram, b, target(e)));
        }
    }
}

/// What means something to an address space is in use.
pub(crate) proof fn lemma_meaningful_used(s: Mem, b: u64, t: u64)
    requires
        space_ok(s, b),
        !alien(s.ram, b, t),
    ensures
        in_ram(s.ram, t),
        not_free(s.frames, t),
{
    reveal(space_ok);
    reveal(data_apart);
    if is_table(s.ram, b, t) {
        let (w, n) = choose|w: u64, n: int| 0 <= n <= 3 && #[trigger] table_at(s.ram, b, w, n) == Some(t);
        assert(path_ok(s.ram, b, w) && path_used(s, b, w));
    } else {
        let v = choose|v: u64| lower(v) && (#[trigger] leaf_of(s.ram, b, v) matches Some(e) && target(e) == t);
        assert(data_frame(s, b, t));
    }
}

/// Placing a page in the lower half of one address space changes nothing that
/// programs in another one see.
pub proof fn law_placing_is_private(
    s: Mem,
    a: u64,
    virt: u64,
    flags: u64,
    data: Seq<u8>,
    what: &'static str,
    b: u64,
)
    requires
        s.wf(),
        space_ok(s, a),
        space_ok(s, b),
        separate(s.ram, a, b),
        lower(virt),
        data.len() <= 4096,
        flags & ADDR_MASK == 0,
    ensures
        ({
            let s1 = placed(s, a, virt, flags, data, what).0;
            &&& s1.wf()
            &&& space_ok(s1, a)
            &&& space_ok(s1, b)
            &&& separate(s1.ram, a, b)
            &&& same_view(s.ram, s1.ram, b)
        }),
{
    law_placed(s, a, virt, flags, data, what);
    if let Some(p) = s.frames.take().1 {
        let filled = Mem { ram: with_bytes(s.ram, p as int, data), frames: s.frames.take().0 };
        lemma_filled(s, a, data);
        lemma_filled(s, b, data);
        lemma_filled_apart(s, a, b, data);
        if mapped(filled, a, virt, p, flags) is Some {
            lemma_mapped_apart(filled, a, virt, p, flags, b);
            let s1 = mapped(filled, a, virt, p, flags)->0;
            assert forall|w: u64| #[trigger] leaf_of(s1.ram, b, w) == leaf_of(s.ram, b, w) by {
                assert(leaf_of(filled.ram, b, w) == leaf_of(s.ram, b, w));
            }
            assert forall|x: u64| lower(x) implies #[trigger] vbyte(s1.ram, b, x) == vbyte(s.ram, b, x) by {
                assert(vbyte(filled.ram, b, x) == vbyte(s.ram, b, x));
            }
        }
    }
}

proof fn lemma_filled_apart(s: Mem, a: u64, b: u64, data: Seq<u8>)
    requires
        s.wf(),
        space_ok(s, a),
        space_ok(s, b),
        separate(s.ram, a, b),
        data.len() <= 4096,
        s.frames.take().1 is Some,
    ensures
        ({
            let p = s.frames.take().1->0;
            let s1 = Mem { ram: with_bytes(s.ram, p as int, data), frames: s.frames.take().0 };
            &&& separate(s1.ram, a, b)
            &&& alien(s1.ram, b, p)
            &&& in_ram(s1.ram, p)
            &&& not_free(s1.frames, p)
        }),
{
    let p = s.frames.take().1->0;
    let s1 = Mem { ram: with_bytes(s.ram, p as int, data), frames: s.frames.take().0 };
    lemma_taken(s);
    lemma_filled(s, a, data);
    lemma_filled(s, b, data);
    reveal(separate);
    assert forall|v: u64| lower(v) implies (#[trigger] leaf_of(s1.ram, b, v) matches Some(e) ==> target(e) != p) by {
        lemma_not_fresh(s, b, v);
        assert(leaf_of(s1.ram, b, v) == leaf_of(s.ram, b, v));
    }
    reveal(space_ok);
    assert forall|w: u64, n: int| 0 <= n <= 3 implies #[trigger] table_at(s1.ram, a, w, n) == table_at(
        s.ram,
        a,
        w,
        n,
    ) by {
        crate::space::lemma_unfilled_tables(s, p, data, a, w, n);
    }
    assert forall|w: u64, n: int| 0 <= n <= 3 implies #[trigger] table_at(s1.ram, b, w, n) == table_at(
        s.ram,
        b,
        w,
        n,
    ) by {
        crate::space::lemma_unfilled_tables(s, p, data, b, w, n);
    }
    assert forall|q: u64| alien(s.ram, b, q) implies #[trigger] alien(s1.ram, b, q) by {
        if is_table(s1.ram, b, q) {
            let (w, n) = choose|w: u64, n: int| 0 <= n <= 3 && #[trigger] table_at(s1.ram, b, w, n) == Some(q);
            assert(table_at(s.ram, b, w, n) == Some(q));
        }
        assert forall|v: u64| lower(v) implies (#[trigger] leaf_of(s1.ram, b, v) matches Some(e) ==> target(e)
            != q) by {
            assert(leaf_of(s1.ram, b, v) == leaf_of(s.ram, b, v));
        }
    }
    assert forall|w: u64, n: int| lower(w) && 0 <= n <= 3 implies (#[trigger] table_at(s1.ram, a, w, n) matches Some(
        t,
    ) ==> alien(s1.ram, b, t)) by {
        assert(table_at(s1.ram, a, w, n) == table_at(s.ram, a, w, n));
        if let Some(t) = table_at(s.ram, a, w, n) {
            assert(alien(s.ram, b, t));
        }
    }
    assert forall|v: u64| lower(v) implies (#[trigger] leaf_of(s1.ram, a, v) matches Some(e) ==> alien(
        s1.ram,
        b,
        target(e),
    )) by {
        assert(leaf_of(s1.ram, a, v) == leaf_of(s.ram, a, v));
        if let Some(e) = leaf_of(s.ram, a, v) {
            assert(alien(s.ram, b, target(e)));
        }
    }
}

/// Writing a byte of a page of one address space changes nothing that programs
/// in another one see.
pub proof fn law_poking_is_private(s: Mem, a: u64, addr: u64, v: u8, b: u64)
    requires
        s.wf(),
        space_ok(s, a),
        space_ok(s, b),
        separate(s.ram, a, b),
        poked(s.ram, a, addr, v) is Some,
    ensures
        ({
            let s1 = Mem { ram: poked(s.ram, a, addr, v)->0, ..s };
            &&& s1.wf()
            &&& space_ok(s1, a)
            &&& space_ok(s1, b)
            &&& separate(s1.ram, a, b)
            &&& same_view(s.ram, s1.ram, b)
        }),
{
    law_poked(s, a, addr, v);
    lemma_lower(addr);
    reveal(space_ok);
    reveal(data_apart);
    reveal(separate);
    let e = leaf_of(s.ram, a, addr)->0;
    let p = target(e);
    assert(data_frame(s, a, p));
    assert(alien(s.ram, b, p));
    let at = p + addr % 4096;
    let s1 = Mem { ram: poked(s.ram, a, addr, v)->0, ..s };
    assert(s1.ram == with_byte(s.ram, at, v));
    assert forall|q: u64|
        #![trigger not_free(s.frames, q)]
        in_ram(s.ram, q) && not_free(s.frames, q) && q != p implies frame_same(s.ram, s1.ram, q)
        && not_free(s1.frames, q) by {
        assert forall|k: int| 0 <= k < 512 implies #[trigger] entry(s1.ram, q, k) == entry(s.ram, q, k) by {
            crate::space::lemma_other_word(s.ram, p, at, v, q, k);
        }
    }
    lemma_kept(s, s1, b);
    assert forall|w: u64, n: int| lower(w) && 0 <= n <= 3 implies (#[trigger] table_at(s1.ram, a, w, n) matches Some(
        t,
    ) ==> alien(s1.ram, b, t)) by {
        crate::space::lemma_poked_tables(s, a, p, at, v, w, n);
        if let Some(t) = table_at(s.ram, a, w, n) {
            assert(alien(s.ram, b, t));
            assert(alien(s1.ram, b, t));
        }
    }
    assert forall|x: u64| lower(x) implies (#[trigger] leaf_of(s1.ram, a, x) matches Some(y) ==> alien(
        s1.ram,
        b,
        target(y),
    )) by {
        assert(leaf_of(s1.ram, a, x) == leaf_of(s.ram, a, x));
        if let Some(y) = leaf_of(s.ram, a, x) {
            assert(alien(s.ram, b, target(y)));
            assert(alien(s1.ram, b, target(y)));
        }
    }
}

/// Making a new address space changes nothing that programs in another one
/// see, and the two have nothing in common below the upper half.
pub proof fn law_new_space_is_private(s: Mem, source: u64, b: u64)
    requires
        s.wf(),
        tables_ok(s.ram, source),
        tables_used(s, source),
        space_ok(s, b),
        s.frames.take().1 is Some,
    ensures
        ({
            let p = s.frames.take().1->0;
            let s1 = Mem { ram: with_root(s.ram, p, source), frames: s.frames.take().0 };
            &&& s1.wf()
            &&& space_ok(s1, p)
            &&& space_ok(s1, b)
            &&& separate(s1.ram, p, b)
            &&& same_view(s.ram, s1.ram, b)
        }),
{
    let p = s.frames.take().1->0;
    let s1 = Mem { ram: with_root(s.ram, p, source), frames: s.frames.take().0 };
    lemma_taken(s);
    law_new_space_ok(s, source);
    assert forall|q: u64|
        #![trigger not_free(s.frames, q)]
        in_ram(s.ram, q) && not_free(s.frames, q) implies frame_same(s.ram, s1.ram, q) && not_free(
        s1.frames,
        q,
    ) by {
        assert(q != p);
        assert forall|k: int| 0 <= k < 512 implies #[trigger] entry(s1.ram, q, k) == entry(s.ram, q, k) by {}
    }
    lemma_kept(s, s1, b);
    assert(alien(s.ram, b, p)) by {
        if !alien(s.ram, b, p) {
            lemma_meaningful_used(s, b, p);
        }
    }
    assert(alien(s1.ram, b, p));
    assert(separate(s1.ram, p, b)) by {
        reveal(separate);
        reveal(space_ok);
        assert forall|w: u64, n: int| lower(w) && 0 <= n <= 3 implies (#[trigger] table_at(
            s1.ram,
            p,
            w,
            n,
        ) matches Some(t) ==> alien(s1.ram, b, t)) by {
            if n > 0 {
                crate::paging::lemma_zero_absent();
                assert(table_at(s1.ram, p, w, 0) == Some(p));
                assert(entry(s1.ram, p, index(w, 0)) == 0);
                assert(table_at(s1.ram, p, w, 1) is None);
                crate::paging::lemma_missing(s1.ram, p, w, 1, n);
            }
        }
        assert forall|v: u64| lower(v) implies (#[trigger] leaf_of(s1.ram, p, v) matches Some(e) ==> alien(
            s1.ram,
            b,
            target(e),
        )) by {
            assert(vbyte(s1.ram, p, v) is None);
        }
    }
}

} // verus!
