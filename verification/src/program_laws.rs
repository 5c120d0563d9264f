//! What a loaded program has in memory once it is ready to start: pages that
//! it may use as its file says, the bytes of its file in them, and words that
//! have been relocated and linked.
use crate::le::bytes64;
use crate::loader::{
    all_exports, all_linked, down16, files_linked, files_mapped, files_relocated, initial_stack, linked, loaded,
    page_address, relocated, seed, segment_flags, segment_mapped, segment_page, segment_pages, segments_mapped,
    stack_finished, stack_mapped, start_words, strings_written, symbol_address, word_bytes, ExternV, ImageV, PlanV,
    SegmentV, NO_ROOM, NO_STACK, UNMAPPED_RELOCATION, UNMAPPED_STACK, USER_STACK_BASE,
};
use crate::loader_laws::{
    first_page, in_user_half, law_segment_in_memory, law_written_bytes, lemma_flags, lemma_page_address,
    lemma_same_byte, lemma_strings, lemma_word_bytes, lemma_written_range, segment_byte, touches, user_images,
};
use crate::mmu::{law_page_entry, law_walks_agree, may_run, may_write, for_programs, page_entry};
use crate::paging::{leaf_of, lemma_aligned, law_map, tables_ok, tables_used, with_root, Mem, ADDR_MASK};
use crate::ram::with_bytes;
use crate::space::{
    law_new_space_ok, law_placed, law_poked, lemma_filled, lemma_lower, placed, poked_all, space_ok, vbyte,
};
use crate::vaddr::{lemma_index, same_page};
use crate::vm::USER_END;
use vstd::prelude::*;

verus! {

broadcast use lemma_index;

// ---- What writing leaves as it is ----

/// The same pages with the same entries.
pub open spec fn same_entries(ram: Seq<u64>, after: Seq<u64>, a: u64) -> bool {
    forall|w: u64| #[trigger] leaf_of(after, a, w) == leaf_of(ram, a, w)
}

/// Placing a page gives it an entry with the flags and leaves every other
/// entry as it is.
pub(crate) proof fn lemma_placed_entry(s: Mem, a: u64, virt: u64, flags: u64, data: Seq<u8>, what: &'static str, w: u64)
    requires
        s.wf(),
        space_ok(s, a),
        data.len() <= 4096,
        flags & ADDR_MASK == 0,
        placed(s, a, virt, flags, data, what).1 is Ok,
    ensures
        ({
            let after = placed(s, a, virt, flags, data, what).0;
            if same_page(virt, w) {
                &&& leaf_of(after.ram, a, w) is Some
                &&& leaf_of(after.ram, a, w)->0 & 1 != 0
                &&& (leaf_of(after.ram, a, w)->0 & 2 != 0) == (flags & 2 != 0)
                &&& (leaf_of(after.ram, a, w)->0 & 4 != 0) == (flags & 4 != 0)
                &&& (leaf_of(after.ram, a, w)->0 & 0x8000_0000_0000_0000 != 0) == (flags & 0x8000_0000_0000_0000 != 0)
            } else {
                leaf_of(after.ram, a, w) == leaf_of(s.ram, a, w)
            }
        }),
{
    let p = s.frames.take().1->0;
    crate::paging::lemma_taken(s);
    lemma_filled(s, a, data);
    let filled = Mem { ram: with_bytes(s.ram, p as int, data), frames: s.frames.take().0 };
    assert(tables_ok(filled.ram, a) && tables_used(filled, a)) by {
        reveal(space_ok);
    }
    law_map(filled, a, virt, p, flags);
    lemma_aligned(p);
    law_page_entry(p, flags);
    assert(leaf_of(filled.ram, a, w) == leaf_of(s.ram, a, w));
}

/// Whether a page is one of a program's: it may use it and run what is in it,
/// and write to it if so asked.
pub open spec fn program_page(e: Option<u64>, writable: bool) -> bool {
    e is Some && for_programs(e->0) && may_run(e->0) && may_write(e->0) == writable
}

proof fn lemma_segment_flags(seg: SegmentV)
    ensures
        segment_flags(seg) & ADDR_MASK == 0,
        segment_flags(seg) & 4 != 0,
        (segment_flags(seg) & 2 != 0) == seg.writable,
        segment_flags(seg) & 0x8000_0000_0000_0000 == 0,
{
    lemma_flags(seg);
    assert((2u64 | 4u64) & 4 != 0 && (2u64 | 4u64) & 2 != 0 && (2u64 | 4u64) & 0x8000_0000_0000_0000 == 0 && 4u64 & 2
        == 0 && 4u64 & 4 != 0 && 4u64 & 0x8000_0000_0000_0000 == 0) by (bit_vector);
}

proof fn lemma_segment_entries(s: Mem, a: u64, seg: SegmentV, n: int, x: u64)
    requires
        s.wf(),
        space_ok(s, a),
        in_user_half(seg),
        0 <= n <= segment_pages(seg),
        segment_mapped(s, a, seg, n).1 is Ok,
        x < USER_END,
    ensures
        ({
            let after = segment_mapped(s, a, seg, n).0;
            if touches(seg, n, x) {
                program_page(leaf_of(after.ram, a, x), seg.writable)
            } else {
                leaf_of(after.ram, a, x) == leaf_of(s.ram, a, x)
            }
        }),
    decreases n,
{
    if n > 0 {
        lemma_segment_entries(s, a, seg, n - 1, x);
        law_segment_in_memory(s, a, seg, n - 1);
        let s1 = segment_mapped(s, a, seg, n - 1).0;
        let at = page_address(seg, n - 1);
        lemma_segment_flags(seg);
        lemma_page_address(seg, n - 1);
        lemma_placed_entry(s1, a, at, segment_flags(seg), segment_page(seg, n - 1), NO_ROOM, x);
        lemma_same_byte(at, x);
        assert(at / 4096 == first_page(seg) + n - 1);
    }
}

/// Whether no page of a segment holds `x`.
pub open spec fn misses(seg: SegmentV, x: u64) -> bool {
    !touches(seg, segment_pages(seg), x)
}

proof fn lemma_segments_kept(s: Mem, a: u64, segs: Seq<SegmentV>, n: int, x: u64)
    requires
        s.wf(),
        space_ok(s, a),
        0 <= n <= segs.len(),
        forall|i: int| 0 <= i < segs.len() ==> in_user_half(#[trigger] segs[i]),
        segments_mapped(s, a, segs, n).1 is Ok,
        x < USER_END,
    ensures
        ({
            let after = segments_mapped(s, a, segs, n).0;
            &&& after.wf()
            &&& space_ok(after, a)
            &&& (forall|i: int| 0 <= i < n ==> misses(#[trigger] segs[i], x)) ==> leaf_of(after.ram, a, x) == leaf_of(
                s.ram,
                a,
                x,
            ) && vbyte(after.ram, a, x) == vbyte(s.ram, a, x)
        }),
    decreases n,
{
    if n > 0 {
        lemma_segments_kept(s, a, segs, n - 1, x);
        let s1 = segments_mapped(s, a, segs, n - 1).0;
        assert(in_user_half(segs[n - 1]));
        lemma_segment_entries(s1, a, segs[n - 1], segment_pages(segs[n - 1]), x);
        law_segment_in_memory(s1, a, segs[n - 1], segment_pages(segs[n - 1]));
        let after = segments_mapped(s, a, segs, n).0;
        assert(vbyte(after.ram, a, x) == if touches(segs[n - 1], segment_pages(segs[n - 1]), x) {
            Some(segment_byte(segs[n - 1], x))
        } else {
            vbyte(s1.ram, a, x)
        });
    }
}

proof fn lemma_segments_have(s: Mem, a: u64, segs: Seq<SegmentV>, n: int, k: int, x: u64)
    requires
        s.wf(),
        space_ok(s, a),
        0 <= k < n <= segs.len(),
        forall|i: int| 0 <= i < segs.len() ==> in_user_half(#[trigger] segs[i]),
        segments_mapped(s, a, segs, n).1 is Ok,
        x < USER_END,
        !misses(segs[k], x),
        forall|i: int| 0 <= i < segs.len() && i != k ==> misses(#[trigger] segs[i], x),
    ensures
        program_page(leaf_of(segments_mapped(s, a, segs, n).0.ram, a, x), segs[k].writable),
        vbyte(segments_mapped(s, a, segs, n).0.ram, a, x) == Some(segment_byte(segs[k], x)),
    decreases n,
{
    let s1 = segments_mapped(s, a, segs, n - 1).0;
    lemma_segments_kept(s, a, segs, n - 1, x);
    assert(in_user_half(segs[n - 1]));
    let pages = segment_pages(segs[n - 1]);
    lemma_segment_entries(s1, a, segs[n - 1], pages, x);
    law_segment_in_memory(s1, a, segs[n - 1], pages);
    let after = segments_mapped(s, a, segs, n).0;
    assert(vbyte(after.ram, a, x) == if touches(segs[n - 1], pages, x) {
        Some(segment_byte(segs[n - 1], x))
    } else {
        vbyte(s1.ram, a, x)
    });
    if k < n - 1 {
        lemma_segments_have(s, a, segs, n - 1, k, x);
        assert(misses(segs[n - 1], x));
    }
}

/// `x` lies in a page of segment `j` of file `k` and in no page of any other
/// segment.
pub open spec fn only_in(images: Seq<ImageV>, k: int, j: int, x: u64) -> bool {
    &&& 0 <= k < images.len()
    &&& 0 <= j < images[k].segments.len()
    &&& !misses(images[k].segments[j], x)
    &&& forall|k2: int, j2: int|
        0 <= k2 < images.len() && 0 <= j2 < images[k2].segments.len() && (k2 != k || j2 != j) ==> misses(
            #[trigger] images[k2].segments[j2],
            x,
        )
}

proof fn lemma_files_kept(s: Mem, a: u64, images: Seq<ImageV>, n: int)
    requires
        s.wf(),
        space_ok(s, a),
        0 <= n <= images.len(),
        user_images(images),
        files_mapped(s, a, images, n).1 is Ok,
    ensures
        files_mapped(s, a, images, n).0.wf(),
        space_ok(files_mapped(s, a, images, n).0, a),
    decreases n,
{
    if n > 0 {
        lemma_files_kept(s, a, images, n - 1);
        let s1 = files_mapped(s, a, images, n - 1).0;
        let segs = images[n - 1].segments;
        lemma_user_segments(images, n - 1);
        lemma_segments_kept(s1, a, segs, segs.len() as int, 0);
    }
}

proof fn lemma_user_segments(images: Seq<ImageV>, k: int)
    requires
        user_images(images),
        0 <= k < images.len(),
    ensures
        forall|i: int| 0 <= i < images[k].segments.len() ==> in_user_half(#[trigger] images[k].segments[i]),
{
    assert forall|i: int| 0 <= i < images[k].segments.len() implies in_user_half(
        #[trigger] images[k].segments[i],
    ) by {}
}

proof fn lemma_files_have(s: Mem, a: u64, images: Seq<ImageV>, n: int, k: int, j: int, x: u64)
    requires
        s.wf(),
        space_ok(s, a),
        0 <= k < n <= images.len(),
        user_images(images),
        files_mapped(s, a, images, n).1 is Ok,
        x < USER_END,
        only_in(images, k, j, x),
    ensures
        program_page(leaf_of(files_mapped(s, a, images, n).0.ram, a, x), images[k].segments[j].writable),
        vbyte(files_mapped(s, a, images, n).0.ram, a, x) == Some(segment_byte(images[k].segments[j], x)),
    decreases n,
{
    let s1 = files_mapped(s, a, images, n - 1).0;
    lemma_files_kept(s, a, images, n - 1);
    let segs = images[n - 1].segments;
    lemma_user_segments(images, n - 1);
    if k < n - 1 {
        lemma_files_have(s, a, images, n - 1, k, j, x);
        assert forall|i: int| 0 <= i < segs.len() implies misses(#[trigger] segs[i], x) by {
            assert(misses(images[n - 1].segments[i], x));
        }
        lemma_segments_kept(s1, a, segs, segs.len() as int, x);
    } else {
        assert forall|i: int| 0 <= i < segs.len() && i != j implies misses(#[trigger] segs[i], x) by {
            assert(misses(images[n - 1].segments[i], x));
        }
        lemma_segments_have(s1, a, segs, segs.len() as int, j, x);
    }
}

// ---- Writing words ----

/// Bytes that were written are where they were put; no other byte and no
/// entry has changed.
proof fn lemma_wrote(s: Mem, a: u64, at: u64, data: Seq<u8>, what: &'static str, n: int)
    requires
        s.wf(),
        space_ok(s, a),
        0 <= n <= data.len(),
        data.len() <= u64::MAX,
        poked_all(s.ram, a, at, data, what, n).1 is Ok,
    ensures
        ({
            let after = poked_all(s.ram, a, at, data, what, n).0;
            let s1 = Mem { ram: after, ..s };
            &&& s1.wf()
            &&& space_ok(s1, a)
            &&& n > 0 ==> at + n <= USER_END
            &&& same_entries(s.ram, after, a)
            &&& forall|x: u64|
                #![trigger vbyte(after, a, x)]
                x < USER_END ==> vbyte(after, a, x) == if at <= x < at + n {
                    Some(data[x - at])
                } else {
                    vbyte(s.ram, a, x)
                }
        }),
    decreases n,
{
    if n > 0 {
        lemma_written_range(s.ram, a, at, data, what, n);
        law_written_bytes(s, a, at, data, what, n);
        lemma_wrote(s, a, at, data, what, n - 1);
        let before = poked_all(s.ram, a, at, data, what, n - 1).0;
        law_poked(Mem { ram: before, ..s }, a, at.wrapping_add((n - 1) as u64), data[n - 1]);
    }
}

/// Whether `x` is one of the eight bytes of a word.
pub open spec fn in_word(at: u64, x: u64) -> bool {
    at <= x < at + 8
}

/// Whether two words have no byte in common.
pub open spec fn words_apart(at: u64, other: u64) -> bool {
    at + 8 <= other || other + 8 <= at
}

/// The word at `at` holds the number `v`, low byte first.
pub open spec fn word_is(ram: Seq<u64>, a: u64, at: u64, v: u64) -> bool {
    forall|i: int| 0 <= i < 8 ==> #[trigger] vbyte(ram, a, (at + i) as u64) == Some(bytes64(v)[i])
}

/// After relocations, the word of each holds its value, unless a later one
/// overlaps it; no other byte and no entry has changed.
proof fn lemma_relocated(s: Mem, a: u64, list: Seq<(u64, u64)>, n: int)
    requires
        s.wf(),
        space_ok(s, a),
        0 <= n <= list.len(),
        relocated(s.ram, a, list, n).1 is Ok,
    ensures
        ({
            let after = relocated(s.ram, a, list, n).0;
            let s1 = Mem { ram: after, ..s };
            &&& s1.wf()
            &&& space_ok(s1, a)
            &&& same_entries(s.ram, after, a)
            &&& forall|x: u64|
                #![trigger vbyte(after, a, x)]
                x < USER_END && (forall|i: int| 0 <= i < n ==> !in_word((#[trigger] list[i]).0, x)) ==> vbyte(after, a, x)
                    == vbyte(s.ram, a, x)
            &&& forall|i: int|
                #![trigger list[i]]
                0 <= i < n && (forall|j: int| i < j < n ==> words_apart(list[i].0, (#[trigger] list[j]).0)) ==> word_is(
                    after,
                    a,
                    list[i].0,
                    list[i].1,
                )
        }),
    decreases n,
{
    if n > 0 {
        lemma_relocated(s, a, list, n - 1);
        let before = relocated(s.ram, a, list, n - 1).0;
        let (at, v) = list[n - 1];
        lemma_wrote(Mem { ram: before, ..s }, a, at, bytes64(v), UNMAPPED_RELOCATION, 8);
        let after = relocated(s.ram, a, list, n).0;
        assert(after == poked_all(before, a, at, bytes64(v), UNMAPPED_RELOCATION, 8).0);
        assert forall|x: u64|
            #![trigger vbyte(after, a, x)]
            x < USER_END && (forall|i: int| 0 <= i < n ==> !in_word((#[trigger] list[i]).0, x)) implies vbyte(after, a, x)
            == vbyte(s.ram, a, x) by {
            assert(!in_word(list[n - 1].0, x));
            assert(vbyte(before, a, x) == vbyte(s.ram, a, x));
        }
        assert forall|i: int|
            #![trigger list[i]]
            0 <= i < n && (forall|j: int| i < j < n ==> words_apart(list[i].0, (#[trigger] list[j]).0)) implies word_is(
            after,
            a,
            list[i].0,
            list[i].1,
        ) by {
            if i == n - 1 {
                assert forall|k: int| 0 <= k < 8 implies #[trigger] vbyte(after, a, (at + k) as u64) == Some(
                    bytes64(v)[k],
                ) by {}
            } else {
                assert(word_is(before, a, list[i].0, list[i].1));
                lemma_relocated_low(s.ram, a, list, n - 1, i);
                assert forall|k: int| 0 <= k < 8 implies #[trigger] vbyte(after, a, (list[i].0 + k) as u64) == Some(
                    bytes64(list[i].1)[k],
                ) by {
                    let x = (list[i].0 + k) as u64;
                    assert(in_word(list[i].0, x));
                    assert(words_apart(list[i].0, list[n - 1].0));
                    assert(vbyte(before, a, x) == Some(bytes64(list[i].1)[k]));
                }
            }
        }
    }
}

/// The words of relocations that were carried out lie in the half of
/// programs.
proof fn lemma_relocated_low(ram: Seq<u64>, a: u64, list: Seq<(u64, u64)>, n: int, i: int)
    requires
        0 <= i < n <= list.len(),
        relocated(ram, a, list, n).1 is Ok,
    ensures
        list[i].0 + 8 <= USER_END,
    decreases n,
{
    let before = relocated(ram, a, list, n - 1).0;
    if i < n - 1 {
        lemma_relocated_low(ram, a, list, n - 1, i);
    } else {
        lemma_written_range(before, a, list[i].0, bytes64(list[i].1), UNMAPPED_RELOCATION, 8);
    }
}

/// What references to symbols come to as words to write: the address of the
/// symbol, to which a plain 64-bit reference (1) adds its addend.
pub open spec fn reference_value(x: ExternV, address: u64) -> u64 {
    if x.kind == 1 {
        address.wrapping_add(x.addend)
    } else {
        address
    }
}

/// References to symbols as relocations.
pub open spec fn references(externs: Seq<ExternV>, exports: Seq<(Seq<u8>, u64)>) -> Seq<(u64, u64)> {
    externs.map_values(
        |x: ExternV| (x.target, reference_value(x, symbol_address(exports, x.name)->0)),
    )
}

/// Linking is relocating with the addresses of the symbols.
proof fn lemma_linked(ram: Seq<u64>, a: u64, externs: Seq<ExternV>, exports: Seq<(Seq<u8>, u64)>, n: int)
    requires
        0 <= n <= externs.len(),
        linked(ram, a, externs, exports, n).1 is Ok,
    ensures
        relocated(ram, a, references(externs, exports), n) == linked(ram, a, externs, exports, n),
        forall|i: int| 0 <= i < n ==> symbol_address(exports, (#[trigger] externs[i]).name) is Some,
    decreases n,
{
    if n > 0 {
        lemma_linked(ram, a, externs, exports, n - 1);
    }
}

/// The address that a name is linked to is that of the last symbol exported
/// under it.
pub proof fn law_symbol_address(exports: Seq<(Seq<u8>, u64)>, name: Seq<u8>)
    ensures
        match symbol_address(exports, name) {
            None => forall|i: int| 0 <= i < exports.len() ==> (#[trigger] exports[i]).0 != name,
            Some(at) => exists|i: int|
                0 <= i < exports.len() && #[trigger] exports[i] == (name, at) && forall|j: int|
                    i < j < exports.len() ==> (#[trigger] exports[j]).0 != name,
        },
    decreases exports.len(),
{
    if exports.len() > 0 {
        let rest = exports.drop_last();
        if exports.last().0 == name {
            let i = exports.len() - 1;
            assert(exports[i] == (name, exports.last().1));
        } else {
            law_symbol_address(rest, name);
            match symbol_address(rest, name) {
                None => {
                    assert forall|i: int| 0 <= i < exports.len() implies (#[trigger] exports[i]).0 != name by {
                        if i < rest.len() {
                            assert(rest[i] == exports[i]);
                        }
                    }
                },
                Some(at) => {
                    let i = choose|i: int|
                        0 <= i < rest.len() && #[trigger] rest[i] == (name, at) && forall|j: int|
                            i < j < rest.len() ==> (#[trigger] rest[j]).0 != name;
                    assert(exports[i] == (name, at));
                    assert forall|j: int| i < j < exports.len() implies (#[trigger] exports[j]).0 != name by {
                        if j < rest.len() {
                            assert(rest[j] == exports[j]);
                        }
                    }
                },
            }
        }
    }
}

/// The words that the relocations of the first `n` files write.
pub open spec fn relocation_words(images: Seq<ImageV>, n: int) -> Seq<(u64, u64)>
    decreases n,
{
    if n <= 0 {
        Seq::empty()
    } else {
        relocation_words(images, n - 1) + images[n - 1].relocations
    }
}

/// The words that the references of the first `n` files to symbols write.
pub open spec fn reference_words(images: Seq<ImageV>, exports: Seq<(Seq<u8>, u64)>, n: int) -> Seq<(u64, u64)>
    decreases n,
{
    if n <= 0 {
        Seq::empty()
    } else {
        reference_words(images, exports, n - 1) + references(images[n - 1].externs, exports)
    }
}

/// The symbols that the libraries of a program export, one library after the
/// other. What the program itself exports is not among them.
pub open spec fn library_exports(images: Seq<ImageV>) -> Seq<(Seq<u8>, u64)> {
    all_exports(images, images.len() as int)
}

/// All words that linking a program writes: first the relocations of every
/// file, then the references of every file.
pub open spec fn link_words(images: Seq<ImageV>) -> Seq<(u64, u64)> {
    relocation_words(images, images.len() as int) + reference_words(
        images,
        library_exports(images),
        images.len() as int,
    )
}

proof fn lemma_relocated_prefix(ram: Seq<u64>, a: u64, list: Seq<(u64, u64)>, more: Seq<(u64, u64)>, n: int)
    requires
        0 <= n <= list.len(),
    ensures
        relocated(ram, a, list + more, n) == relocated(ram, a, list, n),
    decreases n,
{
    if n > 0 {
        lemma_relocated_prefix(ram, a, list, more, n - 1);
        assert((list + more)[n - 1] == list[n - 1]);
    }
}

proof fn lemma_relocated_both(ram: Seq<u64>, a: u64, list: Seq<(u64, u64)>, more: Seq<(u64, u64)>, n: int)
    requires
        0 <= n <= more.len(),
        relocated(ram, a, list, list.len() as int).1 is Ok,
    ensures
        relocated(ram, a, list + more, list.len() + n) == relocated(
            relocated(ram, a, list, list.len() as int).0,
            a,
            more,
            n,
        ),
    decreases n,
{
    lemma_relocated_prefix(ram, a, list, more, list.len() as int);
    if n > 0 {
        lemma_relocated_both(ram, a, list, more, n - 1);
        assert((list + more)[list.len() + n - 1] == more[n - 1]);
    }
}

proof fn lemma_files_relocated(ram: Seq<u64>, a: u64, images: Seq<ImageV>, n: int)
    requires
        0 <= n <= images.len(),
        files_relocated(ram, a, images, n).1 is Ok,
    ensures
        ({
            let list = relocation_words(images, n);
            files_relocated(ram, a, images, n) == relocated(ram, a, list, list.len() as int)
        }),
    decreases n,
{
    if n > 0 {
        lemma_files_relocated(ram, a, images, n - 1);
        let more = images[n - 1].relocations;
        lemma_relocated_both(ram, a, relocation_words(images, n - 1), more, more.len() as int);
    }
}

proof fn lemma_files_linked(ram: Seq<u64>, a: u64, images: Seq<ImageV>, exports: Seq<(Seq<u8>, u64)>, n: int)
    requires
        0 <= n <= images.len(),
        files_linked(ram, a, images, exports, n).1 is Ok,
    ensures
        ({
            let list = reference_words(images, exports, n);
            files_linked(ram, a, images, exports, n) == relocated(ram, a, list, list.len() as int)
        }),
        forall|k: int, i: int|
            0 <= k < n && 0 <= i < images[k].externs.len() ==> symbol_address(
                exports,
                (#[trigger] images[k].externs[i]).name,
            ) is Some,
    decreases n,
{
    if n > 0 {
        lemma_files_linked(ram, a, images, exports, n - 1);
        let before = files_linked(ram, a, images, exports, n - 1).0;
        let externs = images[n - 1].externs;
        lemma_linked(before, a, externs, exports, externs.len() as int);
        let more = references(externs, exports);
        lemma_relocated_both(ram, a, reference_words(images, exports, n - 1), more, more.len() as int);
    }
}

proof fn lemma_all_linked(ram: Seq<u64>, a: u64, images: Seq<ImageV>)
    requires
        all_linked(ram, a, images).1 is Ok,
    ensures
        all_linked(ram, a, images) == relocated(ram, a, link_words(images), link_words(images).len() as int),
        forall|k: int, i: int|
            0 <= k < images.len() && 0 <= i < images[k].externs.len() ==> symbol_address(
                library_exports(images),
                (#[trigger] images[k].externs[i]).name,
            ) is Some,
{
    let n = images.len() as int;
    lemma_files_relocated(ram, a, images, n);
    let between = files_relocated(ram, a, images, n).0;
    lemma_files_linked(between, a, images, library_exports(images), n);
    let more = reference_words(images, library_exports(images), n);
    lemma_relocated_both(ram, a, relocation_words(images, n), more, more.len() as int);
}

// ---- The stack ----

/// Whether an address lies in the 32 pages of a program's stack.
pub open spec fn on_stack(x: u64) -> bool {
    0x50_0000_0000 <= x < 0x50_0002_0000
}

proof fn lemma_stack_entries(s: Mem, a: u64, n: int, x: u64)
    requires
        s.wf(),
        space_ok(s, a),
        0 <= n <= 32,
        stack_mapped(s, a, n).1 is Ok,
        x < USER_END,
    ensures
        ({
            let after = stack_mapped(s, a, n).0;
            &&& after.wf()
            &&& space_ok(after, a)
            &&& if 0x50_0000_0000 <= x < 0x50_0000_0000 + 4096 * n {
                program_page(leaf_of(after.ram, a, x), true)
            } else {
                leaf_of(after.ram, a, x) == leaf_of(s.ram, a, x) && vbyte(after.ram, a, x) == vbyte(s.ram, a, x)
            }
        }),
    decreases n,
{
    if n > 0 {
        lemma_stack_entries(s, a, n - 1, x);
        let s1 = stack_mapped(s, a, n - 1).0;
        let at = (USER_STACK_BASE + (n - 1) * 4096) as u64;
        assert((2u64 | 4u64) & 4 != 0 && (2u64 | 4u64) & 2 != 0 && (2u64 | 4u64) & 0x8000_0000_0000_0000 == 0 && (2u64
            | 4u64) & 0x000F_FFFF_FFFF_F000 == 0) by (bit_vector);
        let flags = crate::paging::PAGE_WRITABLE | crate::paging::PAGE_USER;
        lemma_placed_entry(s1, a, at, flags, Seq::empty(), NO_STACK, x);
        law_placed(s1, a, at, flags, Seq::empty(), NO_STACK);
        lemma_same_byte(at, x);
        lemma_lower(x);
    }
}

proof fn lemma_strings_below(s: Mem, a: u64, cursor: u64, strings: Seq<Seq<u8>>, n: int)
    requires
        s.wf(),
        space_ok(s, a),
        0 <= n <= strings.len(),
        forall|i: int| 0 <= i < strings.len() ==> (#[trigger] strings[i]).len() < u64::MAX,
        cursor <= USER_END,
        strings_written(s.ram, a, cursor, strings, n).1 is Ok,
    ensures
        ({
            let (after, r) = strings_written(s.ram, a, cursor, strings, n);
            let c = (r->Ok_0).0;
            let s1 = Mem { ram: after, ..s };
            &&& s1.wf()
            &&& space_ok(s1, a)
            &&& c <= cursor
            &&& same_entries(s.ram, after, a)
            &&& forall|x: u64|
                #![trigger vbyte(after, a, x)]
                x < USER_END && !(c <= x < cursor) ==> vbyte(after, a, x) == vbyte(s.ram, a, x)
        }),
    decreases n,
{
    if n > 0 {
        lemma_strings_below(s, a, cursor, strings, n - 1);
        let (before, r) = strings_written(s.ram, a, cursor, strings, n - 1);
        let c = (r->Ok_0).0;
        let text = strings[n - 1].push(0);
        let at = c.wrapping_sub(text.len() as u64);
        lemma_wrote(Mem { ram: before, ..s }, a, at, text, UNMAPPED_STACK, text.len() as int);
        assert(at + text.len() == c);
        let after = strings_written(s.ram, a, cursor, strings, n).0;
        assert forall|x: u64|
            #![trigger vbyte(after, a, x)]
            x < USER_END && !(at <= x < cursor) implies vbyte(after, a, x) == vbyte(s.ram, a, x) by {
            assert(vbyte(before, a, x) == vbyte(s.ram, a, x));
        }
    }
}

/// Setting up the stack changes no entry, and no byte outside of what lies
/// between the stack pointer and the top.
#[verifier::spinoff_prover]
#[verifier::rlimit(60)]
proof fn lemma_stack_below(
    s: Mem,
    a: u64,
    top: u64,
    argv: Seq<Seq<u8>>,
    envp: Seq<Seq<u8>>,
    image: ImageV,
    at_base: u64,
)
    requires
        s.wf(),
        space_ok(s, a),
        top <= USER_END,
        forall|i: int| 0 <= i < argv.len() ==> (#[trigger] argv[i]).len() < u64::MAX,
        forall|i: int| 0 <= i < envp.len() ==> (#[trigger] envp[i]).len() < u64::MAX,
        initial_stack(s.ram, a, top, argv, envp, image, at_base).1 is Ok,
    ensures
        ({
            let (after, r) = initial_stack(s.ram, a, top, argv, envp, image, at_base);
            let sp = r->Ok_0;
            &&& sp <= top
            &&& same_entries(s.ram, after, a)
            &&& forall|x: u64|
                #![trigger vbyte(after, a, x)]
                x < USER_END && !(sp <= x < top) ==> vbyte(after, a, x) == vbyte(s.ram, a, x)
        }),
{
    reveal(stack_finished);
    let (r1, x1) = strings_written(s.ram, a, top, argv, argv.len() as int);
    let (c1, args) = x1->Ok_0;
    lemma_strings_below(s, a, top, argv, argv.len() as int);
    lemma_strings(s, a, top, argv, argv.len() as int);
    let s1 = Mem { ram: r1, ..s };
    let (r2, x2) = strings_written(r1, a, c1, envp, envp.len() as int);
    let (c2, vars) = x2->Ok_0;
    lemma_strings_below(s1, a, c1, envp, envp.len() as int);
    lemma_strings(s1, a, c1, envp, envp.len() as int);
    let s2 = Mem { ram: r2, ..s };
    let random = down16(c2.wrapping_sub(16));
    let r3 = poked_all(r2, a, random, seed(), UNMAPPED_STACK, 16).0;
    assert(seed().len() == 16) by {
        reveal(seed);
    }
    lemma_wrote(s2, a, random, seed(), UNMAPPED_STACK, 16);
    let words = start_words(args, vars, crate::loader::auxv(image, at_base, random));
    assert(crate::loader::auxv(image, at_base, random).len() == 28) by {
        reveal(crate::loader::auxv);
    }
    assert(words.len() == argv.len() + envp.len() + 31);
    lemma_word_bytes(words);
    let sp = down16(random.wrapping_sub((words.len() as u64).wrapping_mul(8)));
    let bytes = word_bytes(words);
    lemma_wrote(Mem { ram: r3, ..s }, a, sp, bytes, UNMAPPED_RELOCATION, bytes.len() as int);
    let r4 = poked_all(r3, a, sp, bytes, UNMAPPED_RELOCATION, bytes.len() as int).0;
    assert(random + 16 <= c2);
    assert(sp + bytes.len() <= random);
    assert forall|x: u64|
        #![trigger vbyte(r4, a, x)]
        x < USER_END && !(sp <= x < top) implies vbyte(r4, a, x) == vbyte(s.ram, a, x) by {
        assert(vbyte(r3, a, x) == vbyte(r2, a, x));
        assert(vbyte(r2, a, x) == vbyte(r1, a, x));
        assert(vbyte(r1, a, x) == vbyte(s.ram, a, x));
    }
}

// ---- The program ----

/// Once a program has been loaded, an address in a page of one of its
/// segments alone has an entry that lets the program use it and run it, and
/// write to it exactly if the segment is writable. It holds the byte of the
/// file that belongs there, or zero behind those, unless linking or the stack
/// has written there. The stack is the program's to write.
#[verifier::spinoff_prover]
#[verifier::rlimit(60)]
pub proof fn law_loaded_segments(
    s: Mem,
    source: u64,
    p: PlanV,
    argv: Seq<Seq<u8>>,
    envp: Seq<Seq<u8>>,
    k: int,
    j: int,
    x: u64,
)
    requires
        s.wf(),
        tables_ok(s.ram, source),
        tables_used(s, source),
        loaded(s, source, p, argv, envp).1 is Ok,
        user_images(p.images),
        forall|i: int| 0 <= i < argv.len() ==> (#[trigger] argv[i]).len() < u64::MAX,
        forall|i: int| 0 <= i < envp.len() ==> (#[trigger] envp[i]).len() < u64::MAX,
        x < 0x8000_0000_0000,
    ensures
        ({
            let (after, r) = loaded(s, source, p, argv, envp);
            let (a, sp) = r->Ok_0;
            &&& on_stack(x) ==> program_page(page_entry(after.ram, a, x), true)
            &&& only_in(p.images, k, j, x) && !on_stack(x) ==> program_page(
                page_entry(after.ram, a, x),
                p.images[k].segments[j].writable,
            )
            &&& only_in(p.images, k, j, x) && !on_stack(x) && !(sp <= x < 0x50_0002_0000) && (p.eager ==> forall|i: int|
                0 <= i < link_words(p.images).len() ==> !in_word((#[trigger] link_words(p.images)[i]).0, x)) ==> vbyte(
                after.ram,
                a,
                x,
            ) == Some(segment_byte(p.images[k].segments[j], x))
        }),
{
    let (after, r) = loaded(s, source, p, argv, envp);
    let (a, sp) = r->Ok_0;
    law_walks_agree(after.ram, a, x);
    law_new_space_ok(s, source);
    let fresh = Mem { ram: with_root(s.ram, a, source), frames: s.frames.take().0 };
    let n = p.images.len() as int;
    lemma_files_kept(fresh, a, p.images, n);
    let s1 = files_mapped(fresh, a, p.images, n).0;
    if only_in(p.images, k, j, x) {
        lemma_files_have(fresh, a, p.images, n, k, j, x);
    }
    let ram = if p.eager {
        all_linked(s1.ram, a, p.images).0
    } else {
        s1.ram
    };
    let s2 = Mem { ram, ..s1 };
    if p.eager {
        lemma_all_linked(s1.ram, a, p.images);
        lemma_relocated(s1, a, link_words(p.images), link_words(p.images).len() as int);
    }
    lemma_stack_entries(s2, a, 32, x);
    let s3 = stack_mapped(s2, a, 32).0;
    lemma_stack_below(s3, a, 0x50_0002_0000, argv, envp, p.images[0], p.at_base);
    assert(leaf_of(after.ram, a, x) == leaf_of(s3.ram, a, x));
    assert(leaf_of(s2.ram, a, x) == leaf_of(s1.ram, a, x));
    if !(sp <= x < 0x50_0002_0000) {
        assert(vbyte(after.ram, a, x) == vbyte(s3.ram, a, x));
    }
}

/// Once a program that is linked when it is loaded has been loaded, every
/// word that a relocation or a reference to a symbol is for holds its value,
/// unless a later one overlaps it or it lies where the stack has been set up.
/// Every symbol that is referred to is exported by a library.
#[verifier::spinoff_prover]
#[verifier::rlimit(60)]
pub proof fn law_loaded_words(
    s: Mem,
    source: u64,
    p: PlanV,
    argv: Seq<Seq<u8>>,
    envp: Seq<Seq<u8>>,
    i: int,
)
    requires
        s.wf(),
        tables_ok(s.ram, source),
        tables_used(s, source),
        loaded(s, source, p, argv, envp).1 is Ok,
        user_images(p.images),
        p.eager,
        forall|i: int| 0 <= i < argv.len() ==> (#[trigger] argv[i]).len() < u64::MAX,
        forall|i: int| 0 <= i < envp.len() ==> (#[trigger] envp[i]).len() < u64::MAX,
        0 <= i < link_words(p.images).len(),
        forall|j: int|
            i < j < link_words(p.images).len() ==> words_apart(
                link_words(p.images)[i].0,
                (#[trigger] link_words(p.images)[j]).0,
            ),
    ensures
        ({
            let (after, r) = loaded(s, source, p, argv, envp);
            let (a, sp) = r->Ok_0;
            let (at, v) = link_words(p.images)[i];
            &&& at + 8 <= 0x50_0000_0000 && at + 8 <= sp || 0x50_0002_0000 <= at ==> word_is(after.ram, a, at, v)
            &&& forall|k: int, e: int|
                0 <= k < p.images.len() && 0 <= e < p.images[k].externs.len() ==> symbol_address(
                    library_exports(p.images),
                    (#[trigger] p.images[k].externs[e]).name,
                ) is Some
        }),
{
    let (after, r) = loaded(s, source, p, argv, envp);
    let (a, sp) = r->Ok_0;
    law_new_space_ok(s, source);
    let fresh = Mem { ram: with_root(s.ram, a, source), frames: s.frames.take().0 };
    let n = p.images.len() as int;
    lemma_files_kept(fresh, a, p.images, n);
    let s1 = files_mapped(fresh, a, p.images, n).0;
    lemma_all_linked(s1.ram, a, p.images);
    let list = link_words(p.images);
    lemma_relocated(s1, a, list, list.len() as int);
    let s2 = Mem { ram: all_linked(s1.ram, a, p.images).0, ..s1 };
    let (at, v) = list[i];
    assert(word_is(s2.ram, a, at, v));
    lemma_relocated_low(s1.ram, a, list, list.len() as int, i);
    lemma_stack_entries(s2, a, 32, 0);
    let s3 = stack_mapped(s2, a, 32).0;
    lemma_stack_below(s3, a, 0x50_0002_0000, argv, envp, p.images[0], p.at_base);
    if at + 8 <= 0x50_0000_0000 && at + 8 <= sp || 0x50_0002_0000 <= at {
        assert forall|b: int| 0 <= b < 8 implies #[trigger] vbyte(after.ram, a, (at + b) as u64) == Some(
            bytes64(v)[b],
        ) by {
            let x = (at + b) as u64;
            lemma_stack_entries(s2, a, 32, x);
            assert(vbyte(s2.ram, a, x) == Some(bytes64(v)[b]));
            assert(vbyte(after.ram, a, x) == vbyte(s3.ram, a, x));
        }
    }
}

} // verus!
