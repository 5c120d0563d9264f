//! Address spaces that share tables: what building one up keeps of the tables
//! of the one that it was made from.
use crate::paging::{
    ensured, ensured_to, entry, law_map, leaf, leaf_of, lemma_ensured_all, lemma_ensured_to, lemma_entries,
    lemma_leaf_write, lemma_link, lemma_link_table, lemma_missing, lemma_new_space_source, lemma_new_space_table,
    lemma_other_table, lemma_same_tables, lemma_taken, lemma_tree, lemma_tree_kept, lemma_zero_absent, lemma_zeroed,
    linked_table, mapped, not_free, path_ok, path_used, present, table_at, tables_ok, tables_used, target, with_root,
    Mem, ADDR_MASK,
};
use crate::ram::{in_ram, lemma_with_byte, with_bytes};
use crate::space::{
    data_apart, data_frame, is_table, law_new_space_ok, law_placed, law_poked, lemma_filled, lemma_lower,
    lemma_other_word, lemma_poked_tables, lemma_unfilled_tables, lower, placed, poked, space_ok,
};
use crate::vaddr::{index, lemma_index, same_page, same_prefix};
use vstd::prelude::*;

verus! {

broadcast use lemma_index;

/// Two address spaces share tables only below their roots, and only where
/// both have them at the same place.
#[verifier::opaque]
pub open spec fn shared_in_place(ram: Seq<u64>, a: u64, b: u64) -> bool {
    forall|v: u64, n: int, w: u64, k: int|
        0 <= n <= 3 && 0 <= k <= 3 && (#[trigger] table_at(ram, a, v, n)) is Some && table_at(ram, a, v, n) == (
        #[trigger] table_at(ram, b, w, k)) ==> n == k && n >= 1 && same_prefix(v, w, n)
}

/// No page that the program in `a` has is one of the tables of `b`.
#[verifier::opaque]
pub open spec fn data_clear(ram: Seq<u64>, a: u64, b: u64) -> bool {
    forall|v: u64| lower(v) ==> (#[trigger] leaf_of(ram, a, v) matches Some(e) ==> !is_table(ram, b, target(e)))
}

/// The address space `a` is in order beside `b`, whose tables are in order
/// too and may be shared.
pub open spec fn beside(s: Mem, a: u64, b: u64) -> bool {
    &&& s.wf()
    &&& space_ok(s, a)
    &&& tables_ok(s.ram, b)
    &&& tables_used(s, b)
    &&& shared_in_place(s.ram, a, b)
    &&& data_clear(s.ram, a, b)
}

/// Frames in use stay in use, and the tables of `b` are the ones that it had
/// and frames that were free.
spec fn grown(s: Mem, s1: Mem, b: u64) -> bool {
    &&& forall|q: u64| not_free(s.frames, q) ==> #[trigger] not_free(s1.frames, q)
    &&& forall|w: u64, n: int|
        0 <= n <= 3 ==> (#[trigger] table_at(s1.ram, b, w, n) matches Some(q) ==> table_at(s.ram, b, w, n) == Some(q)
            || !not_free(s.frames, q))
}

proof fn lemma_grown_chain(s: Mem, s1: Mem, s2: Mem, b: u64)
    requires
        grown(s, s1, b),
        grown(s1, s2, b),
    ensures
        grown(s, s2, b),
{
    assert forall|q: u64| not_free(s.frames, q) implies #[trigger] not_free(s2.frames, q) by {
        assert(not_free(s1.frames, q));
    }
    assert forall|w: u64, n: int| 0 <= n <= 3 implies (#[trigger] table_at(s2.ram, b, w, n) matches Some(q)
        ==> table_at(s.ram, b, w, n) == Some(q) || !not_free(s.frames, q)) by {
        if let Some(q) = table_at(s2.ram, b, w, n) {
            if table_at(s1.ram, b, w, n) != Some(q) {
                assert(!not_free(s1.frames, q));
            }
        }
    }
}

/// Where `a` has a table that `b` has too, `b` has it at the same place.
proof fn lemma_shared(ram: Seq<u64>, a: u64, b: u64, virt: u64, level: int, t: u64)
    requires
        shared_in_place(ram, a, b),
        0 <= level <= 3,
        table_at(ram, a, virt, level) == Some(t),
        is_table(ram, b, t),
    ensures
        table_at(ram, b, virt, level) == Some(t),
{
    reveal(shared_in_place);
    let (w, n) = choose|w: u64, n: int| 0 <= n <= 3 && #[trigger] table_at(ram, b, w, n) == Some(t);
    assert(table_at(ram, a, virt, level) == table_at(ram, b, w, n));
    lemma_same_tables(ram, b, virt, w, level);
}

/// A write to a table that is not one of `b`'s, and to a free frame, leaves
/// the tables of `b` as they are.
proof fn lemma_link_elsewhere(s: Mem, b: u64, t: u64, i: int)
    requires
        s.wf(),
        tables_ok(s.ram, b),
        tables_used(s, b),
        in_ram(s.ram, t),
        not_free(s.frames, t),
        !is_table(s.ram, b, t),
        0 <= i < 512,
        !present(entry(s.ram, t, i)),
        s.frames.take().1 is Some,
    ensures
        ({
            let s1 = (ensured(s, t, i)->0).0;
            &&& tables_ok(s1.ram, b)
            &&& tables_used(s1, b)
            &&& forall|w: u64, n: int|
                0 <= n <= 3 ==> #[trigger] table_at(s1.ram, b, w, n) == table_at(s.ram, b, w, n)
        }),
{
    let s1 = (ensured(s, t, i)->0).0;
    let p = s.frames.take().1->0;
    lemma_taken(s);
    assert forall|x: u64, k: int|
        in_ram(s.ram, x) && not_free(s.frames, x) && x != t && 0 <= k < 512 implies #[trigger] entry(s1.ram, x, k)
        == entry(s.ram, x, k) by {
        lemma_zeroed(s.ram, p, x, k);
    }
    assert forall|w: u64, n: int| 0 <= n <= 3 implies #[trigger] table_at(s1.ram, b, w, n) == table_at(
        s.ram,
        b,
        w,
        n,
    ) by {
        assert forall|v: u64, k: int| 0 <= k <= 3 implies #[trigger] table_at(s.ram, b, v, k) != Some(t) by {}
        lemma_other_table(s, s1.ram, b, t, w, n);
    }
    lemma_tree_kept(s.ram, s1.ram, b);
    assert forall|w: u64| path_used(s1, b, w) by {
        assert(path_used(s, b, w));
        assert forall|n: int| 0 <= n <= 3 implies (#[trigger] table_at(s1.ram, b, w, n) matches Some(x) ==> not_free(
            s1.frames,
            x,
        )) by {
            assert(table_at(s1.ram, b, w, n) == table_at(s.ram, b, w, n));
        }
    }
}

/// Linking a fresh table in `a` keeps the tables of `b` in order, and what
/// the two share in place.
#[verifier::spinoff_prover]
#[verifier::rlimit(40)]
proof fn lemma_link_beside(s: Mem, a: u64, b: u64, virt: u64, level: int)
    requires
        s.wf(),
        tables_ok(s.ram, a),
        tables_used(s, a),
        tables_ok(s.ram, b),
        tables_used(s, b),
        shared_in_place(s.ram, a, b),
        0 <= level <= 2,
        table_at(s.ram, a, virt, level) is Some,
        !present(entry(s.ram, table_at(s.ram, a, virt, level)->0, index(virt, level))),
        s.frames.take().1 is Some,
    ensures
        ({
            let t = table_at(s.ram, a, virt, level)->0;
            let s1 = (ensured(s, t, index(virt, level))->0).0;
            &&& tables_ok(s1.ram, b)
            &&& tables_used(s1, b)
            &&& shared_in_place(s1.ram, a, b)
            &&& grown(s, s1, b)
        }),
{
    let t = table_at(s.ram, a, virt, level)->0;
    let i = index(virt, level);
    let p = s.frames.take().1->0;
    let s1 = (ensured(s, t, i)->0).0;
    lemma_taken(s);
    assert(path_ok(s.ram, a, virt) && path_used(s, a, virt));
    let both = is_table(s.ram, b, t);
    if both {
        lemma_shared(s.ram, a, b, virt, level, t);
        lemma_link(s, b, virt, level);
    } else {
        lemma_link_elsewhere(s, b, t, i);
    }
    assert forall|w: u64, n: int| 0 <= n <= 3 implies #[trigger] table_at(s1.ram, b, w, n) == if both {
        linked_table(s, b, virt, level, p, w, n)
    } else {
        table_at(s.ram, b, w, n)
    } by {
        if both {
            lemma_link_table(s, b, virt, level, w, n);
        }
    }
    assert(shared_in_place(s1.ram, a, b)) by {
        reveal(shared_in_place);
        assert forall|v: u64, n: int, w: u64, k: int|
            0 <= n <= 3 && 0 <= k <= 3 && (#[trigger] table_at(s1.ram, a, v, n)) is Some && table_at(s1.ram, a, v, n)
                == (#[trigger] table_at(s1.ram, b, w, k)) implies n == k && n >= 1 && same_prefix(v, w, n) by {
            lemma_link_table(s, a, virt, level, v, n);
            assert(path_used(s, a, v) && path_used(s, b, w));
            let x = table_at(s1.ram, a, v, n);
            if table_at(s.ram, a, v, n) == x && table_at(s.ram, b, w, k) == x {
            } else if table_at(s.ram, a, v, n) == x {
                assert(x == Some(p));
                assert(not_free(s.frames, p));
            } else if table_at(s.ram, b, w, k) == x {
                assert(x == Some(p));
                assert(not_free(s.frames, p));
            }
        }
    }
    assert(grown(s, s1, b));
}

#[verifier::spinoff_prover]
#[verifier::rlimit(40)]
proof fn lemma_ensured_beside(s: Mem, a: u64, b: u64, virt: u64, level: int)
    requires
        s.wf(),
        tables_ok(s.ram, a),
        tables_used(s, a),
        tables_ok(s.ram, b),
        tables_used(s, b),
        shared_in_place(s.ram, a, b),
        0 <= level <= 3,
        ensured_to(s, a, virt, level) is Some,
    ensures
        ({
            let (s1, t) = ensured_to(s, a, virt, level)->0;
            &&& tables_ok(s1.ram, b)
            &&& tables_used(s1, b)
            &&& shared_in_place(s1.ram, a, b)
            &&& grown(s, s1, b)
        }),
    decreases level,
{
    if level > 0 {
        lemma_ensured_all(s, a, virt, level - 1, level);
        lemma_ensured_to(s, a, virt, level - 1);
        lemma_ensured_beside(s, a, b, virt, level - 1);
        let (s0, t) = ensured_to(s, a, virt, level - 1)->0;
        if !present(entry(s0.ram, t, index(virt, level - 1))) {
            lemma_link_beside(s0, a, b, virt, level - 1);
            let s1 = (ensured_to(s, a, virt, level)->0).0;
            lemma_grown_chain(s, s0, s1, b);
        }
    }
}

/// Mapping a page in `a` keeps the tables of `b` in order.
#[verifier::spinoff_prover]
#[verifier::rlimit(40)]
proof fn lemma_mapped_beside(s: Mem, a: u64, b: u64, virt: u64, phys: u64, flags: u64)
    requires
        s.wf(),
        tables_ok(s.ram, a),
        tables_used(s, a),
        tables_ok(s.ram, b),
        tables_used(s, b),
        shared_in_place(s.ram, a, b),
        mapped(s, a, virt, phys, flags) is Some,
    ensures
        ({
            let s1 = mapped(s, a, virt, phys, flags)->0;
            &&& tables_ok(s1.ram, b)
            &&& tables_used(s1, b)
            &&& shared_in_place(s1.ram, a, b)
            &&& grown(s, s1, b)
        }),
{
    lemma_ensured_to(s, a, virt, 3);
    lemma_ensured_beside(s, a, b, virt, 3);
    let (s1, t) = ensured_to(s, a, virt, 3)->0;
    let s2 = mapped(s, a, virt, phys, flags)->0;
    let e = leaf(phys, flags);
    lemma_leaf_write(s1.ram, a, virt, e);
    assert(path_ok(s1.ram, a, virt) && path_used(s1, a, virt));
    if is_table(s1.ram, b, t) {
        lemma_shared(s1.ram, a, b, virt, 3, t);
        lemma_leaf_write(s1.ram, b, virt, e);
    } else {
        assert forall|w: u64, n: int| 0 <= n <= 3 implies #[trigger] table_at(s2.ram, b, w, n) == table_at(
            s1.ram,
            b,
            w,
            n,
        ) by {
            assert forall|v: u64, k: int| 0 <= k <= 3 implies #[trigger] table_at(s1.ram, b, v, k) != Some(t) by {}
            lemma_other_table(s1, s2.ram, b, t, w, n);
        }
        lemma_tree_kept(s1.ram, s2.ram, b);
    }
    assert forall|w: u64| path_used(s2, b, w) by {
        assert(path_used(s1, b, w));
        assert forall|n: int| 0 <= n <= 3 implies (#[trigger] table_at(s2.ram, b, w, n) matches Some(x) ==> not_free(
            s2.frames,
            x,
        )) by {
            assert(table_at(s2.ram, b, w, n) == table_at(s1.ram, b, w, n));
        }
    }
    lemma_shared_kept(s1.ram, s2.ram, a, b);
    assert(grown(s1, s2, b));
    lemma_grown_chain(s, s1, s2, b);
}

proof fn lemma_shared_kept(ram: Seq<u64>, after: Seq<u64>, a: u64, b: u64)
    requires
        shared_in_place(ram, a, b),
        forall|w: u64, n: int| 0 <= n <= 3 ==> #[trigger] table_at(after, a, w, n) == table_at(ram, a, w, n),
        forall|w: u64, n: int| 0 <= n <= 3 ==> #[trigger] table_at(after, b, w, n) == table_at(ram, b, w, n),
    ensures
        shared_in_place(after, a, b),
{
    reveal(shared_in_place);
    assert forall|v: u64, n: int, w: u64, k: int|
        0 <= n <= 3 && 0 <= k <= 3 && (#[trigger] table_at(after, a, v, n)) is Some && table_at(after, a, v, n) == (
        #[trigger] table_at(after, b, w, k)) implies n == k && n >= 1 && same_prefix(v, w, n) by {
        assert(table_at(after, a, v, n) == table_at(ram, a, v, n));
        assert(table_at(after, b, w, k) == table_at(ram, b, w, k));
    }
}

/// Filling a free frame keeps the tables of `b` in order.
proof fn lemma_filled_beside(s: Mem, a: u64, b: u64, data: Seq<u8>)
    requires
        beside(s, a, b),
        data.len() <= 4096,
        s.frames.take().1 is Some,
    ensures
        ({
            let (frames, p) = (s.frames.take().0, s.frames.take().1->0);
            let s1 = Mem { ram: with_bytes(s.ram, p as int, data), frames };
            &&& beside(s1, a, b)
            &&& !is_table(s1.ram, b, p)
            &&& not_free(s1.frames, p)
        }),
{
    reveal(space_ok);
    let (frames, p) = (s.frames.take().0, s.frames.take().1->0);
    let s1 = Mem { ram: with_bytes(s.ram, p as int, data), frames };
    lemma_taken(s);
    lemma_filled(s, a, data);
    assert forall|w: u64, n: int| 0 <= n <= 3 implies #[trigger] table_at(s1.ram, b, w, n) == table_at(
        s.ram,
        b,
        w,
        n,
    ) by {
        lemma_unfilled_tables(s, p, data, b, w, n);
    }
    assert forall|w: u64, n: int| 0 <= n <= 3 implies #[trigger] table_at(s1.ram, a, w, n) == table_at(
        s.ram,
        a,
        w,
        n,
    ) by {
        lemma_unfilled_tables(s, p, data, a, w, n);
    }
    lemma_tree_kept(s.ram, s1.ram, b);
    assert forall|w: u64| path_used(s1, b, w) by {
        assert(path_used(s, b, w));
        assert forall|n: int| 0 <= n <= 3 implies (#[trigger] table_at(s1.ram, b, w, n) matches Some(x) ==> not_free(
            s1.frames,
            x,
        )) by {
            assert(table_at(s1.ram, b, w, n) == table_at(s.ram, b, w, n));
        }
    }
    lemma_shared_kept(s.ram, s1.ram, a, b);
    assert forall|w: u64, n: int| 0 <= n <= 3 implies #[trigger] table_at(s1.ram, b, w, n) != Some(p) by {
        assert(path_used(s, b, w));
        assert(table_at(s1.ram, b, w, n) == table_at(s.ram, b, w, n));
    }
    lemma_clear_kept(s.ram, s1.ram, a, b);
}

proof fn lemma_clear_kept(ram: Seq<u64>, after: Seq<u64>, a: u64, b: u64)
    requires
        data_clear(ram, a, b),
        forall|w: u64| #[trigger] leaf_of(after, a, w) == leaf_of(ram, a, w),
        forall|w: u64, n: int| 0 <= n <= 3 ==> #[trigger] table_at(after, b, w, n) == table_at(ram, b, w, n),
    ensures
        data_clear(after, a, b),
{
    reveal(data_clear);
    assert forall|v: u64| lower(v) implies (#[trigger] leaf_of(after, a, v) matches Some(e) ==> !is_table(
        after,
        b,
        target(e),
    )) by {
        if let Some(e) = leaf_of(after, a, v) {
            assert(leaf_of(after, a, v) == leaf_of(ram, a, v));
            if is_table(after, b, target(e)) {
                let (w, n) = choose|w: u64, n: int|
                    0 <= n <= 3 && #[trigger] table_at(after, b, w, n) == Some(target(e));
                assert(table_at(ram, b, w, n) == Some(target(e)));
            }
        }
    }
}

/// Placing a page in an address space keeps it in order beside the one that
/// it was made from.
#[verifier::spinoff_prover]
#[verifier::rlimit(40)]
pub proof fn law_placing_beside(s: Mem, a: u64, virt: u64, flags: u64, data: Seq<u8>, what: &'static str, b: u64)
    requires
        beside(s, a, b),
        data.len() <= 4096,
        flags & ADDR_MASK == 0,
    ensures
        beside(placed(s, a, virt, flags, data, what).0, a, b),
{
    law_placed(s, a, virt, flags, data, what);
    if let Some(p) = s.frames.take().1 {
        let s1 = Mem { ram: with_bytes(s.ram, p as int, data), frames: s.frames.take().0 };
        lemma_filled_beside(s, a, b, data);
        if let Some(s2) = mapped(s1, a, virt, p, flags) {
            assert(tables_ok(s1.ram, a) && tables_used(s1, a) && data_apart(s1, a)) by {
                reveal(space_ok);
            }
            lemma_mapped_beside(s1, a, b, virt, p, flags);
            law_map(s1, a, virt, p, flags);
            lemma_taken(s);
            lemma_entries(p, flags, 0);
            assert(data_clear(s2.ram, a, b)) by {
                reveal(data_clear);
                reveal(data_apart);
                assert forall|v: u64| lower(v) implies (#[trigger] leaf_of(s2.ram, a, v) matches Some(e) ==> !is_table(
                    s2.ram,
                    b,
                    target(e),
                )) by {
                    if let Some(e) = leaf_of(s2.ram, a, v) {
                        let q = target(e);
                        assert(not_free(s1.frames, q) && !is_table(s1.ram, b, q)) by {
                            if same_page(virt, v) {
                                assert(q == p);
                            } else {
                                assert(leaf_of(s1.ram, a, v) == Some(e));
                                assert(data_frame(s1, a, q));
                            }
                        }
                        if is_table(s2.ram, b, q) {
                            let (w, n) = choose|w: u64, n: int|
                                0 <= n <= 3 && #[trigger] table_at(s2.ram, b, w, n) == Some(q);
                            assert(table_at(s1.ram, b, w, n) == Some(q));
                        }
                    }
                }
            }
        }
    }
}

/// Writing a byte of a page keeps an address space in order beside the one
/// that it was made from.
pub proof fn law_poking_beside(s: Mem, a: u64, addr: u64, v: u8, b: u64)
    requires
        beside(s, a, b),
        poked(s.ram, a, addr, v) is Some,
    ensures
        beside((Mem { ram: poked(s.ram, a, addr, v)->0, ..s }), a, b),
{
    law_poked(s, a, addr, v);
    lemma_lower(addr);
    let e = leaf_of(s.ram, a, addr)->0;
    let q = target(e);
    let at = q + addr % 4096;
    let ram = poked(s.ram, a, addr, v)->0;
    let s1 = Mem { ram, ..s };
    assert(!is_table(s.ram, b, q)) by {
        reveal(data_clear);
    }
    assert(data_frame(s, a, q) && tables_ok(s.ram, a)) by {
        reveal(space_ok);
        reveal(data_apart);
    }
    lemma_with_byte(s.ram, at, v);
    assert forall|w: u64, n: int| 0 <= n <= 3 implies #[trigger] table_at(ram, b, w, n) == table_at(s.ram, b, w, n) by {
        lemma_poked_tables(s, b, q, at, v, w, n);
    }
    assert forall|w: u64, n: int| 0 <= n <= 3 implies #[trigger] table_at(ram, a, w, n) == table_at(s.ram, a, w, n) by {
        lemma_poked_tables(s, a, q, at, v, w, n);
    }
    lemma_tree_kept(s.ram, ram, b);
    assert forall|w: u64| path_used(s1, b, w) by {
        assert(path_used(s, b, w));
        assert forall|n: int| 0 <= n <= 3 implies (#[trigger] table_at(ram, b, w, n) matches Some(x) ==> not_free(
            s1.frames,
            x,
        )) by {
            assert(table_at(ram, b, w, n) == table_at(s.ram, b, w, n));
        }
    }
    lemma_shared_kept(s.ram, ram, a, b);
    lemma_clear_kept(s.ram, ram, a, b);
}

/// A new address space is in order beside the one that it is made from.
#[verifier::spinoff_prover]
#[verifier::rlimit(40)]
pub proof fn law_new_space_beside(s: Mem, source: u64)
    requires
        s.wf(),
        tables_ok(s.ram, source),
        tables_used(s, source),
        s.frames.take().1 is Some,
    ensures
        ({
            let p = s.frames.take().1->0;
            beside((Mem { ram: with_root(s.ram, p, source), frames: s.frames.take().0 }), p, source)
        }),
{
    let p = s.frames.take().1->0;
    let ram = with_root(s.ram, p, source);
    let s1 = Mem { ram, frames: s.frames.take().0 };
    lemma_taken(s);
    law_new_space_ok(s, source);
    lemma_zero_absent();
    assert forall|w: u64, n: int| 0 <= n <= 3 implies #[trigger] table_at(ram, source, w, n) == table_at(
        s.ram,
        source,
        w,
        n,
    ) by {
        lemma_new_space_source(s, source, w, n);
    }
    lemma_tree_kept(s.ram, ram, source);
    assert forall|w: u64| path_used(s1, source, w) by {
        assert(path_used(s, source, w));
        assert forall|n: int| 0 <= n <= 3 implies (#[trigger] table_at(ram, source, w, n) matches Some(x)
            ==> not_free(s1.frames, x)) by {
            assert(table_at(ram, source, w, n) == table_at(s.ram, source, w, n));
        }
    }
    assert forall|w: u64, n: int| 1 <= n <= 3 implies #[trigger] table_at(ram, p, w, n) == if lower(w) {
        None
    } else {
        table_at(s.ram, source, w, n)
    } by {
        if lower(w) {
            assert(table_at(ram, p, w, 0) == Some(p));
            assert(entry(ram, p, index(w, 0)) == 0);
            assert(table_at(ram, p, w, 1) is None);
            lemma_missing(ram, p, w, 1, n);
        } else {
            lemma_new_space_table(s, source, w, n);
        }
    }
    assert(shared_in_place(ram, p, source)) by {
        reveal(shared_in_place);
        assert forall|v: u64, n: int, w: u64, k: int|
            0 <= n <= 3 && 0 <= k <= 3 && (#[trigger] table_at(ram, p, v, n)) is Some && table_at(ram, p, v, n) == (
            #[trigger] table_at(ram, source, w, k)) implies n == k && n >= 1 && same_prefix(v, w, n) by {
            assert(table_at(ram, source, w, k) == table_at(s.ram, source, w, k));
            assert(path_used(s, source, w));
            if n == 0 {
                assert(table_at(ram, p, v, 0) == Some(p));
                assert(not_free(s.frames, p));
            } else {
                lemma_tree(s.ram, source, v, n, w, k);
            }
        }
    }
    assert(data_clear(ram, p, source)) by {
        reveal(data_clear);
        assert forall|v: u64| lower(v) implies (#[trigger] leaf_of(ram, p, v) matches Some(e) ==> !is_table(
            ram,
            source,
            target(e),
        )) by {
            assert(table_at(ram, p, v, 3) is None);
        }
    }
}

// ---- What the programs in the shared space have ----

/// What two address spaces share is on the way to addresses of the upper half
/// alone.
#[verifier::opaque]
pub open spec fn upper_shared(ram: Seq<u64>, a: u64, b: u64) -> bool {
    forall|v: u64, n: int|
        0 <= n <= 3 && (#[trigger] table_at(ram, a, v, n)) is Some && is_table(ram, b, table_at(ram, a, v, n)->0)
            ==> !lower(v)
}

/// The address space `a` is in order beside `b`, which is in order too: the
/// two share tables of the upper half alone, and no page that a program in
/// `b` has is one of the tables of `a`.
pub open spec fn beside_space(s: Mem, a: u64, b: u64) -> bool {
    &&& beside(s, a, b)
    &&& space_ok(s, b)
    &&& upper_shared(s.ram, a, b)
    &&& data_clear(s.ram, b, a)
}

/// The pages that programs in `b` have are where they were.
spec fn pages_stay(ram: Seq<u64>, after: Seq<u64>, b: u64) -> bool {
    forall|v: u64| lower(v) ==> #[trigger] leaf_of(after, b, v) == leaf_of(ram, b, v)
}

/// An address space whose pages stay and whose tables grow by free frames
/// alone stays in order.
proof fn lemma_pages_stay(s: Mem, s1: Mem, a: u64, b: u64)
    requires
        space_ok(s, b),
        data_clear(s.ram, b, a),
        s1.ram.len() == s.ram.len(),
        s1.frames.used.len() == s.frames.used.len(),
        tables_ok(s1.ram, b),
        tables_used(s1, b),
        pages_stay(s.ram, s1.ram, b),
        grown(s, s1, b),
        grown(s, s1, a),
    ensures
        space_ok(s1, b),
        data_clear(s1.ram, b, a),
{
    reveal(space_ok);
    reveal(data_apart);
    reveal(data_clear);
    assert forall|v: u64| lower(v) implies (#[trigger] leaf_of(s1.ram, b, v) matches Some(e) ==> data_frame(
        s1,
        b,
        target(e),
    ) && !is_table(s1.ram, a, target(e))) by {
        if let Some(e) = leaf_of(s1.ram, b, v) {
            let q = target(e);
            assert(leaf_of(s.ram, b, v) == Some(e));
            assert(data_frame(s, b, q) && !is_table(s.ram, a, q));
            assert(not_free(s1.frames, q));
            if is_table(s1.ram, b, q) {
                let (w, n) = choose|w: u64, n: int| 0 <= n <= 3 && #[trigger] table_at(s1.ram, b, w, n) == Some(q);
                assert(table_at(s.ram, b, w, n) == Some(q));
            }
            if is_table(s1.ram, a, q) {
                let (w, n) = choose|w: u64, n: int| 0 <= n <= 3 && #[trigger] table_at(s1.ram, a, w, n) == Some(q);
                assert(table_at(s.ram, a, w, n) == Some(q));
            }
        }
    }
    assert forall|v: u64, w: u64|
        lower(v) && lower(w) && (#[trigger] leaf_of(s1.ram, b, v)) is Some && (#[trigger] leaf_of(s1.ram, b, w)) is Some
            && target(leaf_of(s1.ram, b, v)->0) == target(leaf_of(s1.ram, b, w)->0) implies same_page(v, w) by {
        assert(leaf_of(s1.ram, b, v) == leaf_of(s.ram, b, v));
        assert(leaf_of(s1.ram, b, w) == leaf_of(s.ram, b, w));
    }
}

/// Linking a fresh table in `a`: what it does to the pages of `b`, to the
/// tables of `a`, and to what the two share.
#[verifier::spinoff_prover]
#[verifier::rlimit(60)]
proof fn lemma_link_pages(s: Mem, a: u64, b: u64, virt: u64, level: int)
    requires
        s.wf(),
        tables_ok(s.ram, a),
        tables_used(s, a),
        tables_ok(s.ram, b),
        tables_used(s, b),
        shared_in_place(s.ram, a, b),
        upper_shared(s.ram, a, b),
        0 <= level <= 2,
        table_at(s.ram, a, virt, level) is Some,
        !present(entry(s.ram, table_at(s.ram, a, virt, level)->0, index(virt, level))),
        s.frames.take().1 is Some,
    ensures
        ({
            let t = table_at(s.ram, a, virt, level)->0;
            let s1 = (ensured(s, t, index(virt, level))->0).0;
            &&& pages_stay(s.ram, s1.ram, b)
            &&& grown(s, s1, a)
            &&& upper_shared(s1.ram, a, b)
            &&& s1.ram.len() == s.ram.len()
            &&& s1.frames.used.len() == s.frames.used.len()
        }),
{
    let t = table_at(s.ram, a, virt, level)->0;
    let i = index(virt, level);
    let p = s.frames.take().1->0;
    let s1 = (ensured(s, t, i)->0).0;
    lemma_taken(s);
    assert(path_ok(s.ram, a, virt) && path_used(s, a, virt));
    let both = is_table(s.ram, b, t);
    if both {
        lemma_shared(s.ram, a, b, virt, level, t);
        lemma_link(s, b, virt, level);
        assert(!lower(virt)) by {
            reveal(upper_shared);
        }
        assert(level >= 1) by {
            reveal(shared_in_place);
        }
    } else {
        lemma_link_elsewhere(s, b, t, i);
        assert forall|x: u64, k: int|
            in_ram(s.ram, x) && not_free(s.frames, x) && x != t && 0 <= k < 512 implies #[trigger] entry(s1.ram, x, k)
            == entry(s.ram, x, k) by {
            lemma_zeroed(s.ram, p, x, k);
        }
        assert forall|v: u64| lower(v) implies #[trigger] leaf_of(s1.ram, b, v) == leaf_of(s.ram, b, v) by {
            assert forall|w: u64, k: int| 0 <= k <= 3 implies #[trigger] table_at(s.ram, b, w, k) != Some(t) by {}
            lemma_other_table(s, s1.ram, b, t, v, 3);
        }
    }
    assert forall|w: u64, n: int| 0 <= n <= 3 implies #[trigger] table_at(s1.ram, b, w, n) == if both {
        linked_table(s, b, virt, level, p, w, n)
    } else {
        table_at(s.ram, b, w, n)
    } by {
        if both {
            lemma_link_table(s, b, virt, level, w, n);
        }
    }
    assert forall|w: u64, n: int| 0 <= n <= 3 implies #[trigger] table_at(s1.ram, a, w, n) == linked_table(
        s,
        a,
        virt,
        level,
        p,
        w,
        n,
    ) by {
        lemma_link_table(s, a, virt, level, w, n);
    }
    assert(upper_shared(s1.ram, a, b)) by {
        reveal(upper_shared);
        assert forall|v: u64, n: int|
            0 <= n <= 3 && (#[trigger] table_at(s1.ram, a, v, n)) is Some && is_table(
                s1.ram,
                b,
                table_at(s1.ram, a, v, n)->0,
            ) implies !lower(v) by {
            let x = table_at(s1.ram, a, v, n)->0;
            let (w, k) = choose|w: u64, k: int| 0 <= k <= 3 && #[trigger] table_at(s1.ram, b, w, k) == Some(x);
            assert(path_used(s, a, v) && path_used(s, b, w));
            if table_at(s.ram, a, v, n) == Some(x) {
                assert(x != p);
                assert(table_at(s.ram, b, w, k) == Some(x));
                assert(is_table(s.ram, b, x));
            } else {
                assert(x == p && same_prefix(virt, v, level + 1));
                if table_at(s.ram, b, w, k) == Some(x) {
                    assert(not_free(s.frames, p));
                }
                assert(both);
            }
        }
    }
}

#[verifier::spinoff_prover]
#[verifier::rlimit(40)]
proof fn lemma_ensured_pages(s: Mem, a: u64, b: u64, virt: u64, level: int)
    requires
        s.wf(),
        tables_ok(s.ram, a),
        tables_used(s, a),
        tables_ok(s.ram, b),
        tables_used(s, b),
        shared_in_place(s.ram, a, b),
        upper_shared(s.ram, a, b),
        0 <= level <= 3,
        ensured_to(s, a, virt, level) is Some,
    ensures
        ({
            let (s1, t) = ensured_to(s, a, virt, level)->0;
            &&& pages_stay(s.ram, s1.ram, b)
            &&& grown(s, s1, a)
            &&& upper_shared(s1.ram, a, b)
            &&& s1.ram.len() == s.ram.len()
            &&& s1.frames.used.len() == s.frames.used.len()
        }),
    decreases level,
{
    if level > 0 {
        lemma_ensured_all(s, a, virt, level - 1, level);
        lemma_ensured_to(s, a, virt, level - 1);
        lemma_ensured_beside(s, a, b, virt, level - 1);
        lemma_ensured_pages(s, a, b, virt, level - 1);
        let (s0, t) = ensured_to(s, a, virt, level - 1)->0;
        if !present(entry(s0.ram, t, index(virt, level - 1))) {
            lemma_link_pages(s0, a, b, virt, level - 1);
            let s1 = (ensured_to(s, a, virt, level)->0).0;
            lemma_grown_chain(s, s0, s1, a);
            assert forall|v: u64| lower(v) implies #[trigger] leaf_of(s1.ram, b, v) == leaf_of(s.ram, b, v) by {
                assert(leaf_of(s0.ram, b, v) == leaf_of(s.ram, b, v));
            }
        }
    }
}

/// Mapping a page in `a` leaves the pages of `b` where they are.
#[verifier::spinoff_prover]
#[verifier::rlimit(60)]
proof fn lemma_mapped_pages(s: Mem, a: u64, b: u64, virt: u64, phys: u64, flags: u64)
    requires
        s.wf(),
        tables_ok(s.ram, a),
        tables_used(s, a),
        tables_ok(s.ram, b),
        tables_used(s, b),
        shared_in_place(s.ram, a, b),
        upper_shared(s.ram, a, b),
        mapped(s, a, virt, phys, flags) is Some,
    ensures
        ({
            let s1 = mapped(s, a, virt, phys, flags)->0;
            &&& pages_stay(s.ram, s1.ram, b)
            &&& grown(s, s1, a)
            &&& upper_shared(s1.ram, a, b)
            &&& s1.ram.len() == s.ram.len()
            &&& s1.frames.used.len() == s.frames.used.len()
        }),
{
    lemma_ensured_to(s, a, virt, 3);
    lemma_ensured_beside(s, a, b, virt, 3);
    lemma_ensured_pages(s, a, b, virt, 3);
    let (s1, t) = ensured_to(s, a, virt, 3)->0;
    let s2 = mapped(s, a, virt, phys, flags)->0;
    let e = leaf(phys, flags);
    lemma_leaf_write(s1.ram, a, virt, e);
    assert(path_ok(s1.ram, a, virt) && path_used(s1, a, virt));
    let both = is_table(s1.ram, b, t);
    if both {
        lemma_shared(s1.ram, a, b, virt, 3, t);
        lemma_leaf_write(s1.ram, b, virt, e);
        assert(!lower(virt)) by {
            reveal(upper_shared);
        }
    } else {
        assert forall|w: u64, k: int| 0 <= k <= 3 implies #[trigger] table_at(s1.ram, b, w, k) != Some(t) by {}
        assert forall|w: u64, n: int| 0 <= n <= 3 implies #[trigger] table_at(s2.ram, b, w, n) == table_at(
            s1.ram,
            b,
            w,
            n,
        ) by {
            lemma_other_table(s1, s2.ram, b, t, w, n);
        }
    }
    assert forall|v: u64| lower(v) implies #[trigger] leaf_of(s2.ram, b, v) == leaf_of(s.ram, b, v) by {
        if !both {
            lemma_other_table(s1, s2.ram, b, t, v, 3);
        }
        assert(leaf_of(s1.ram, b, v) == leaf_of(s.ram, b, v));
    }
    assert(grown(s1, s2, a));
    lemma_grown_chain(s, s1, s2, a);
    lemma_upper_kept(s1.ram, s2.ram, a, b);
}

proof fn lemma_upper_kept(ram: Seq<u64>, after: Seq<u64>, a: u64, b: u64)
    requires
        upper_shared(ram, a, b),
        forall|w: u64, n: int| 0 <= n <= 3 ==> #[trigger] table_at(after, a, w, n) == table_at(ram, a, w, n),
        forall|w: u64, n: int| 0 <= n <= 3 ==> #[trigger] table_at(after, b, w, n) == table_at(ram, b, w, n),
    ensures
        upper_shared(after, a, b),
{
    reveal(upper_shared);
    assert forall|v: u64, n: int|
        0 <= n <= 3 && (#[trigger] table_at(after, a, v, n)) is Some && is_table(
            after,
            b,
            table_at(after, a, v, n)->0,
        ) implies !lower(v) by {
        let x = table_at(after, a, v, n)->0;
        let (w, k) = choose|w: u64, k: int| 0 <= k <= 3 && #[trigger] table_at(after, b, w, k) == Some(x);
        assert(table_at(ram, b, w, k) == Some(x));
        assert(table_at(ram, a, v, n) == Some(x));
        assert(is_table(ram, b, x));
    }
}

/// Filling a free frame leaves the pages of `b` where they are.
proof fn lemma_filled_pages(s: Mem, a: u64, b: u64, data: Seq<u8>)
    requires
        beside_space(s, a, b),
        data.len() <= 4096,
        s.frames.take().1 is Some,
    ensures
        ({
            let (frames, p) = (s.frames.take().0, s.frames.take().1->0);
            beside_space((Mem { ram: with_bytes(s.ram, p as int, data), frames }), a, b)
        }),
{
    let (frames, p) = (s.frames.take().0, s.frames.take().1->0);
    let s1 = Mem { ram: with_bytes(s.ram, p as int, data), frames };
    lemma_taken(s);
    lemma_filled_beside(s, a, b, data);
    lemma_filled(s, a, data);
    lemma_filled(s, b, data);
    assert(tables_ok(s.ram, a) && tables_used(s, a)) by {
        reveal(space_ok);
    }
    assert forall|w: u64, n: int| 0 <= n <= 3 implies #[trigger] table_at(s1.ram, a, w, n) == table_at(
        s.ram,
        a,
        w,
        n,
    ) by {
        lemma_unfilled_tables(s, p, data, a, w, n);
    }
    assert forall|w: u64, n: int| 0 <= n <= 3 implies #[trigger] table_at(s1.ram, b, w, n) == table_at(
        s.ram,
        b,
        w,
        n,
    ) by {
        lemma_unfilled_tables(s, p, data, b, w, n);
    }
    lemma_upper_kept(s.ram, s1.ram, a, b);
    lemma_clear_kept(s.ram, s1.ram, b, a);
}

/// Placing a page in an address space keeps it, and the one that it was made
/// from, in order.
#[verifier::spinoff_prover]
#[verifier::rlimit(40)]
pub proof fn law_placing_beside_space(
    s: Mem,
    a: u64,
    virt: u64,
    flags: u64,
    data: Seq<u8>,
    what: &'static str,
    b: u64,
)
    requires
        beside_space(s, a, b),
        data.len() <= 4096,
        flags & ADDR_MASK == 0,
    ensures
        beside_space(placed(s, a, virt, flags, data, what).0, a, b),
{
    law_placing_beside(s, a, virt, flags, data, what, b);
    if let Some(p) = s.frames.take().1 {
        let s1 = Mem { ram: with_bytes(s.ram, p as int, data), frames: s.frames.take().0 };
        lemma_filled_pages(s, a, b, data);
        if let Some(s2) = mapped(s1, a, virt, p, flags) {
            assert(tables_ok(s1.ram, a) && tables_used(s1, a)) by {
                reveal(space_ok);
            }
            lemma_mapped_beside(s1, a, b, virt, p, flags);
            lemma_mapped_pages(s1, a, b, virt, p, flags);
            lemma_pages_stay(s1, s2, a, b);
        }
    }
}

/// Writing a byte of a page keeps an address space, and the one that it was
/// made from, in order.
pub proof fn law_poking_beside_space(s: Mem, a: u64, addr: u64, v: u8, b: u64)
    requires
        beside_space(s, a, b),
        poked(s.ram, a, addr, v) is Some,
    ensures
        beside_space((Mem { ram: poked(s.ram, a, addr, v)->0, ..s }), a, b),
{
    law_poking_beside(s, a, addr, v, b);
    lemma_lower(addr);
    let e = leaf_of(s.ram, a, addr)->0;
    let q = target(e);
    let at = q + addr % 4096;
    let ram = poked(s.ram, a, addr, v)->0;
    let s1 = Mem { ram, ..s };
    assert(!is_table(s.ram, b, q)) by {
        reveal(data_clear);
    }
    assert(data_frame(s, a, q) && tables_ok(s.ram, a)) by {
        reveal(space_ok);
        reveal(data_apart);
    }
    lemma_with_byte(s.ram, at, v);
    assert forall|w: u64, n: int| 0 <= n <= 3 implies #[trigger] table_at(ram, b, w, n) == table_at(s.ram, b, w, n) by {
        lemma_poked_tables(s, b, q, at, v, w, n);
    }
    assert forall|w: u64, n: int| 0 <= n <= 3 implies #[trigger] table_at(ram, a, w, n) == table_at(s.ram, a, w, n) by {
        lemma_poked_tables(s, a, q, at, v, w, n);
    }
    assert forall|w: u64| lower(w) implies #[trigger] leaf_of(ram, b, w) == leaf_of(s.ram, b, w) by {
        assert(table_at(ram, b, w, 3) == table_at(s.ram, b, w, 3));
        assert(path_ok(s.ram, b, w));
        if let Some(t) = table_at(s.ram, b, w, 3) {
            assert(t != q);
            lemma_other_word(s.ram, q, at, v, t, index(w, 3));
        }
    }
    lemma_upper_kept(s.ram, ram, a, b);
    lemma_pages_stay(s, s1, a, b);
}

/// A new address space, and the one that it is made from, are in order.
#[verifier::spinoff_prover]
#[verifier::rlimit(40)]
pub proof fn law_new_space_beside_space(s: Mem, source: u64)
    requires
        s.wf(),
        space_ok(s, source),
        s.frames.take().1 is Some,
    ensures
        ({
            let p = s.frames.take().1->0;
            beside_space((Mem { ram: with_root(s.ram, p, source), frames: s.frames.take().0 }), p, source)
        }),
{
    let p = s.frames.take().1->0;
    let ram = with_root(s.ram, p, source);
    let s1 = Mem { ram, frames: s.frames.take().0 };
    assert(tables_ok(s.ram, source) && tables_used(s, source) && data_apart(s, source)) by {
        reveal(space_ok);
    }
    lemma_taken(s);
    law_new_space_beside(s, source);
    lemma_zero_absent();
    assert forall|w: u64, n: int| 0 <= n <= 3 implies #[trigger] table_at(ram, source, w, n) == table_at(
        s.ram,
        source,
        w,
        n,
    ) by {
        lemma_new_space_source(s, source, w, n);
    }
    assert forall|w: u64| #[trigger] leaf_of(ram, source, w) == leaf_of(s.ram, source, w) by {
        lemma_new_space_source(s, source, w, 3);
    }
    assert forall|w: u64, n: int| 1 <= n <= 3 implies #[trigger] table_at(ram, p, w, n) == if lower(w) {
        None
    } else {
        table_at(s.ram, source, w, n)
    } by {
        if lower(w) {
            assert(table_at(ram, p, w, 0) == Some(p));
            assert(entry(ram, p, index(w, 0)) == 0);
            assert(table_at(ram, p, w, 1) is None);
            lemma_missing(ram, p, w, 1, n);
        } else {
            lemma_new_space_table(s, source, w, n);
        }
    }
    assert(!is_table(ram, source, p)) by {
        if is_table(ram, source, p) {
            let (w, n) = choose|w: u64, n: int| 0 <= n <= 3 && #[trigger] table_at(ram, source, w, n) == Some(p);
            assert(path_used(s, source, w));
            assert(table_at(s.ram, source, w, n) == Some(p));
        }
    }
    assert(upper_shared(ram, p, source)) by {
        reveal(upper_shared);
        assert forall|v: u64, n: int|
            0 <= n <= 3 && (#[trigger] table_at(ram, p, v, n)) is Some && is_table(
                ram,
                source,
                table_at(ram, p, v, n)->0,
            ) implies !lower(v) by {
            if n == 0 {
                assert(table_at(ram, p, v, 0) == Some(p));
            }
        }
    }
    // What programs in the source have is in use, and no table of it.
    reveal(data_apart);
    reveal(data_clear);
    assert forall|v: u64| lower(v) implies (#[trigger] leaf_of(ram, source, v) matches Some(e) ==> data_frame(
        s1,
        source,
        target(e),
    ) && !is_table(ram, p, target(e))) by {
        if let Some(e) = leaf_of(ram, source, v) {
            let q = target(e);
            assert(leaf_of(s.ram, source, v) == Some(e));
            assert(data_frame(s, source, q));
            if is_table(ram, source, q) {
                let (w, n) = choose|w: u64, n: int| 0 <= n <= 3 && #[trigger] table_at(ram, source, w, n) == Some(q);
                assert(table_at(s.ram, source, w, n) == Some(q));
            }
            if is_table(ram, p, q) {
                let (w, n) = choose|w: u64, n: int| 0 <= n <= 3 && #[trigger] table_at(ram, p, w, n) == Some(q);
                if n == 0 {
                    assert(table_at(ram, p, w, 0) == Some(p));
                } else {
                    assert(table_at(s.ram, source, w, n) == Some(q));
                }
            }
        }
    }
    assert(data_apart(s1, source)) by {
        assert forall|v: u64, w: u64|
            lower(v) && lower(w) && (#[trigger] leaf_of(ram, source, v)) is Some && (#[trigger] leaf_of(ram, source, w))
                is Some && target(leaf_of(ram, source, v)->0) == target(leaf_of(ram, source, w)->0) implies same_page(
            v,
            w,
        ) by {
            assert(leaf_of(ram, source, v) == leaf_of(s.ram, source, v));
            assert(leaf_of(ram, source, w) == leaf_of(s.ram, source, w));
        }
    }
    reveal(space_ok);
}

} // verus!
