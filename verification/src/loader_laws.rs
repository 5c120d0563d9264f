//! What holds of loading: a loaded program finds its segments, its arguments
//! and its stack in memory, and loading it disturbs no other program.
use crate::isolation::{law_new_space_is_private, law_placing_is_private, law_poking_is_private, same_view, separate};
use crate::le::bytes64;
use crate::loader::{
    all_exports, all_linked, auxv, down16, files_linked, files_mapped, files_relocated, initial_stack, linked, loaded,
    page_address, relocated, resolved_value, seed, segment_flags, segment_mapped, segment_page, segment_pages,
    segments_mapped, stack_finished, stack_mapped, start_words, strings_written, symbol_address, word_bytes, ExternV,
    ImageV, PlanV, SegmentV, NO_ROOM, NO_STACK, PAGE_SIZE, UNMAPPED_RELOCATION, UNMAPPED_STACK, USER_STACK_BASE,
    USER_STACK_SIZE,
};
use crate::paging::{leaf_of, tables_ok, tables_used, with_root, Mem, ADDR_MASK, PAGE_USER, PAGE_WRITABLE};
use crate::sharing::{
    beside, beside_space, law_new_space_beside, law_new_space_beside_space, law_placing_beside,
    law_placing_beside_space, law_poking_beside, law_poking_beside_space,
};
use crate::space::{law_placed, law_poked, lemma_lower, lower, poked, poked_all, space_ok, vbyte};
use crate::vaddr::{lemma_same_page, same_page};
use crate::vm::USER_END;
use vstd::prelude::*;

verus! {

// ---- Other programs ----

/// An address space to which loading a program in another does no harm: that
/// of some program, or the one that the other is made from, of which either
/// the tables alone or also the pages of its programs are in order.
pub ghost enum Watched {
    Program(u64),
    Source(u64),
    SourceSpace(u64),
}

/// `s` has the address space `a` in order. That of a program is in order too,
/// apart from it, and looks as it does in `ram`; the one that `a` was made
/// from still has its tables, and where they were its pages, in order.
pub open spec fn undisturbed(ram: Seq<u64>, s: Mem, a: u64, b: Watched) -> bool {
    match b {
        Watched::Program(b) => s.wf() && space_ok(s, a) && space_ok(s, b) && separate(s.ram, a, b) && same_view(
            ram,
            s.ram,
            b,
        ),
        Watched::Source(b) => beside(s, a, b),
        Watched::SourceSpace(b) => beside_space(s, a, b),
    }
}

/// Whether a segment lies in the half that belongs to programs.
pub open spec fn in_user_half(seg: SegmentV) -> bool {
    seg.vaddr + seg.mem_size <= USER_END
}

pub(crate) proof fn lemma_flags(seg: SegmentV)
    ensures
        segment_flags(seg) & ADDR_MASK == 0,
        (PAGE_WRITABLE | PAGE_USER) & ADDR_MASK == 0,
{
    assert((2u64 | 4u64) & 0x000F_FFFF_FFFF_F000u64 == 0) by (bit_vector);
    assert(4u64 & 0x000F_FFFF_FFFF_F000u64 == 0) by (bit_vector);
}

pub(crate) proof fn lemma_page_address(seg: SegmentV, i: int)
    requires
        in_user_half(seg),
        0 <= i < segment_pages(seg),
    ensures
        page_address(seg, i) == seg.vaddr - seg.vaddr % 4096 + 4096 * i,
        page_address(seg, i) < USER_END,
        page_address(seg, i) % 4096 == 0,
        lower(page_address(seg, i)),
{
    lemma_lower(page_address(seg, i));
}

proof fn lemma_view_chain(a: Seq<u64>, b: Seq<u64>, c: Seq<u64>, space: u64)
    requires
        same_view(a, b, space),
        same_view(b, c, space),
    ensures
        same_view(a, c, space),
{
    assert forall|w: u64| #[trigger] leaf_of(c, space, w) == leaf_of(a, space, w) by {
        assert(leaf_of(b, space, w) == leaf_of(a, space, w));
    }
    assert forall|x: u64| lower(x) implies #[trigger] vbyte(c, space, x) == vbyte(a, space, x) by {
        assert(vbyte(b, space, x) == vbyte(a, space, x));
    }
}

proof fn lemma_segment_private(ram: Seq<u64>, s: Mem, a: u64, seg: SegmentV, n: int, b: Watched)
    requires
        undisturbed(ram, s, a, b),
        b is Program ==> in_user_half(seg),
        n <= segment_pages(seg),
    ensures
        undisturbed(ram, segment_mapped(s, a, seg, n).0, a, b),
    decreases n,
{
    if n > 0 {
        lemma_segment_private(ram, s, a, seg, n - 1, b);
        let (s1, r) = segment_mapped(s, a, seg, n - 1);
        if r is Ok {
            lemma_flags(seg);
            let at = page_address(seg, n - 1);
            let flags = segment_flags(seg);
            let data = segment_page(seg, n - 1);
            match b {
                Watched::Program(b) => {
                    lemma_page_address(seg, n - 1);
                    law_placing_is_private(s1, a, at, flags, data, NO_ROOM, b);
                    lemma_view_chain(ram, s1.ram, segment_mapped(s, a, seg, n).0.ram, b);
                },
                Watched::Source(b) => law_placing_beside(s1, a, at, flags, data, NO_ROOM, b),
                Watched::SourceSpace(b) => law_placing_beside_space(s1, a, at, flags, data, NO_ROOM, b),
            }
        }
    }
}

proof fn lemma_segments_private(ram: Seq<u64>, s: Mem, a: u64, segs: Seq<SegmentV>, n: int, b: Watched)
    requires
        undisturbed(ram, s, a, b),
        b is Program ==> forall|i: int| 0 <= i < segs.len() ==> in_user_half(#[trigger] segs[i]),
        n <= segs.len(),
    ensures
        undisturbed(ram, segments_mapped(s, a, segs, n).0, a, b),
    decreases n,
{
    if n > 0 {
        lemma_segments_private(ram, s, a, segs, n - 1, b);
        let (s1, r) = segments_mapped(s, a, segs, n - 1);
        if r is Ok {
            lemma_segment_private(ram, s1, a, segs[n - 1], segment_pages(segs[n - 1]), b);
        }
    }
}

proof fn lemma_files_private(ram: Seq<u64>, s: Mem, a: u64, images: Seq<ImageV>, n: int, b: Watched)
    requires
        undisturbed(ram, s, a, b),
        b is Program ==> user_images(images),
        n <= images.len(),
    ensures
        undisturbed(ram, files_mapped(s, a, images, n).0, a, b),
    decreases n,
{
    if n > 0 {
        lemma_files_private(ram, s, a, images, n - 1, b);
        let (s1, r) = files_mapped(s, a, images, n - 1);
        if r is Ok {
            let segs = images[n - 1].segments;
            if b is Program {
                assert forall|i: int| 0 <= i < segs.len() implies in_user_half(#[trigger] segs[i]) by {
                    assert(in_user_half(images[n - 1].segments[i]));
                }
            }
            lemma_segments_private(ram, s1, a, segs, segs.len() as int, b);
        }
    }
}

/// All segments of a program lie in the half that belongs to programs.
pub open spec fn user_images(images: Seq<ImageV>) -> bool {
    forall|k: int, i: int|
        0 <= k < images.len() && 0 <= i < images[k].segments.len() ==> in_user_half(
            #[trigger] images[k].segments[i],
        )
}

proof fn lemma_poked_private(ram: Seq<u64>, s: Mem, a: u64, at: u64, data: Seq<u8>, what: &'static str, n: int, b: Watched)
    requires
        undisturbed(ram, s, a, b),
    ensures
        undisturbed(ram, (Mem { ram: poked_all(s.ram, a, at, data, what, n).0, ..s }), a, b),
    decreases n,
{
    if n > 0 {
        lemma_poked_private(ram, s, a, at, data, what, n - 1, b);
        let (before, r) = poked_all(s.ram, a, at, data, what, n - 1);
        let s1 = Mem { ram: before, ..s };
        let x = at.wrapping_add((n - 1) as u64);
        if r is Ok && poked(before, a, x, data[n - 1]) is Some {
            match b {
                Watched::Program(b) => {
                    law_poking_is_private(s1, a, x, data[n - 1], b);
                    lemma_view_chain(ram, before, poked(before, a, x, data[n - 1])->0, b);
                },
                Watched::Source(b) => law_poking_beside(s1, a, x, data[n - 1], b),
                Watched::SourceSpace(b) => law_poking_beside_space(s1, a, x, data[n - 1], b),
            }
        }
    }
}

proof fn lemma_relocated_private(ram: Seq<u64>, s: Mem, a: u64, list: Seq<(u64, u64)>, n: int, b: Watched)
    requires
        undisturbed(ram, s, a, b),
    ensures
        undisturbed(ram, (Mem { ram: relocated(s.ram, a, list, n).0, ..s }), a, b),
    decreases n,
{
    if n > 0 {
        lemma_relocated_private(ram, s, a, list, n - 1, b);
        let (before, r) = relocated(s.ram, a, list, n - 1);
        if r is Ok {
            lemma_poked_private(
                ram,
                Mem { ram: before, ..s },
                a,
                list[n - 1].0,
                bytes64(list[n - 1].1),
                UNMAPPED_RELOCATION,
                8,
                b,
            );
        }
    }
}

proof fn lemma_files_relocated_private(ram: Seq<u64>, s: Mem, a: u64, images: Seq<ImageV>, n: int, b: Watched)
    requires
        undisturbed(ram, s, a, b),
    ensures
        undisturbed(ram, (Mem { ram: files_relocated(s.ram, a, images, n).0, ..s }), a, b),
    decreases n,
{
    if n > 0 {
        lemma_files_relocated_private(ram, s, a, images, n - 1, b);
        let (before, r) = files_relocated(s.ram, a, images, n - 1);
        if r is Ok {
            let list = images[n - 1].relocations;
            lemma_relocated_private(ram, Mem { ram: before, ..s }, a, list, list.len() as int, b);
        }
    }
}

proof fn lemma_linked_private(
    ram: Seq<u64>,
    s: Mem,
    a: u64,
    externs: Seq<ExternV>,
    exports: Seq<(Seq<u8>, u64)>,
    n: int,
    b: Watched,
)
    requires
        undisturbed(ram, s, a, b),
    ensures
        undisturbed(ram, (Mem { ram: linked(s.ram, a, externs, exports, n).0, ..s }), a, b),
    decreases n,
{
    if n > 0 {
        lemma_linked_private(ram, s, a, externs, exports, n - 1, b);
        let (before, r) = linked(s.ram, a, externs, exports, n - 1);
        let x = externs[n - 1];
        if r is Ok && symbol_address(exports, x.name) is Some {
            lemma_poked_private(
                ram,
                Mem { ram: before, ..s },
                a,
                x.target,
                bytes64(resolved_value(x, symbol_address(exports, x.name)->0)),
                UNMAPPED_RELOCATION,
                8,
                b,
            );
        }
    }
}

proof fn lemma_files_linked_private(
    ram: Seq<u64>,
    s: Mem,
    a: u64,
    images: Seq<ImageV>,
    exports: Seq<(Seq<u8>, u64)>,
    n: int,
    b: Watched,
)
    requires
        undisturbed(ram, s, a, b),
    ensures
        undisturbed(ram, (Mem { ram: files_linked(s.ram, a, images, exports, n).0, ..s }), a, b),
    decreases n,
{
    if n > 0 {
        lemma_files_linked_private(ram, s, a, images, exports, n - 1, b);
        let (before, r) = files_linked(s.ram, a, images, exports, n - 1);
        if r is Ok {
            let list = images[n - 1].externs;
            lemma_linked_private(ram, Mem { ram: before, ..s }, a, list, exports, list.len() as int, b);
        }
    }
}

proof fn lemma_stack_private(ram: Seq<u64>, s: Mem, a: u64, n: int, b: Watched)
    requires
        undisturbed(ram, s, a, b),
        n <= 32,
    ensures
        undisturbed(ram, stack_mapped(s, a, n).0, a, b),
    decreases n,
{
    if n > 0 {
        lemma_stack_private(ram, s, a, n - 1, b);
        let (s1, r) = stack_mapped(s, a, n - 1);
        if r is Ok {
            let at = (USER_STACK_BASE + (n - 1) * PAGE_SIZE) as u64;
            assert((2u64 | 4u64) & 0x000F_FFFF_FFFF_F000u64 == 0) by (bit_vector);
            let flags = PAGE_WRITABLE | PAGE_USER;
            match b {
                Watched::Program(b) => {
                    lemma_lower(at);
                    law_placing_is_private(s1, a, at, flags, Seq::empty(), NO_STACK, b);
                    lemma_view_chain(ram, s1.ram, stack_mapped(s, a, n).0.ram, b);
                },
                Watched::Source(b) => law_placing_beside(s1, a, at, flags, Seq::empty(), NO_STACK, b),
                Watched::SourceSpace(b) => law_placing_beside_space(s1, a, at, flags, Seq::empty(), NO_STACK, b),
            }
        }
    }
}

proof fn lemma_strings_private(
    ram: Seq<u64>,
    s: Mem,
    a: u64,
    cursor: u64,
    strings: Seq<Seq<u8>>,
    n: int,
    b: Watched,
)
    requires
        undisturbed(ram, s, a, b),
    ensures
        undisturbed(ram, (Mem { ram: strings_written(s.ram, a, cursor, strings, n).0, ..s }), a, b),
    decreases n,
{
    if n > 0 {
        lemma_strings_private(ram, s, a, cursor, strings, n - 1, b);
        let (before, r) = strings_written(s.ram, a, cursor, strings, n - 1);
        if let Ok((c, _)) = r {
            let text = strings[n - 1].push(0);
            lemma_poked_private(
                ram,
                Mem { ram: before, ..s },
                a,
                c.wrapping_sub(text.len() as u64),
                text,
                UNMAPPED_STACK,
                text.len() as int,
                b,
            );
        }
    }
}

proof fn lemma_initial_private(
    ram: Seq<u64>,
    s: Mem,
    a: u64,
    top: u64,
    argv: Seq<Seq<u8>>,
    envp: Seq<Seq<u8>>,
    image: ImageV,
    at_base: u64,
    b: Watched,
)
    requires
        undisturbed(ram, s, a, b),
    ensures
        undisturbed(
            ram,
            (Mem { ram: initial_stack(s.ram, a, top, argv, envp, image, at_base).0, ..s }),
            a,
            b,
        ),
{
    reveal(stack_finished);
    lemma_strings_private(ram, s, a, top, argv, argv.len() as int, b);
    let (r1, x1) = strings_written(s.ram, a, top, argv, argv.len() as int);
    if let Ok((c1, args)) = x1 {
        let s1 = Mem { ram: r1, ..s };
        lemma_strings_private(ram, s1, a, c1, envp, envp.len() as int, b);
        let (r2, x2) = strings_written(r1, a, c1, envp, envp.len() as int);
        if let Ok((c2, vars)) = x2 {
            let random = down16(c2.wrapping_sub(16));
            let s2 = Mem { ram: r2, ..s };
            lemma_poked_private(ram, s2, a, random, seed(), UNMAPPED_STACK, 16, b);
            let (r3, x3) = poked_all(r2, a, random, seed(), UNMAPPED_STACK, 16);
            if x3 is Ok {
                let words = start_words(args, vars, auxv(image, at_base, random));
                let sp = down16(random.wrapping_sub((words.len() as u64).wrapping_mul(8)));
                let bytes = word_bytes(words);
                lemma_poked_private(
                    ram,
                    Mem { ram: r3, ..s },
                    a,
                    sp,
                    bytes,
                    UNMAPPED_RELOCATION,
                    bytes.len() as int,
                    b,
                );
            }
        }
    }
}

/// All that is done for a program in its new address space disturbs none that
/// is watched.
proof fn lemma_loaded_undisturbed(s: Mem, source: u64, p: PlanV, argv: Seq<Seq<u8>>, envp: Seq<Seq<u8>>, b: Watched)
    requires
        s.frames.take().1 matches Some(a) && undisturbed(
            s.ram,
            (Mem { ram: with_root(s.ram, a, source), frames: s.frames.take().0 }),
            a,
            b,
        ),
        b is Program ==> user_images(p.images),
    ensures
        undisturbed(s.ram, loaded(s, source, p, argv, envp).0, s.frames.take().1->0, b),
{
    let a = s.frames.take().1->0;
    let fresh = Mem { ram: with_root(s.ram, a, source), frames: s.frames.take().0 };
    let n = p.images.len() as int;
    lemma_files_private(s.ram, fresh, a, p.images, n, b);
    let (s1, r1) = files_mapped(fresh, a, p.images, n);
    if r1 is Ok {
        if p.eager {
            lemma_files_relocated_private(s.ram, s1, a, p.images, n, b);
            let (ram, r) = files_relocated(s1.ram, a, p.images, n);
            if r is Ok {
                lemma_files_linked_private(
                    s.ram,
                    Mem { ram, ..s1 },
                    a,
                    p.images,
                    all_exports(p.images, n),
                    n,
                    b,
                );
            }
        }
        let (ram, r) = if p.eager {
            all_linked(s1.ram, a, p.images)
        } else {
            (s1.ram, Ok(()))
        };
        let s2 = Mem { ram, ..s1 };
        assert(undisturbed(s.ram, s2, a, b));
        if r is Ok {
            lemma_stack_private(s.ram, s2, a, 32, b);
            let (s3, r3) = stack_mapped(s2, a, 32);
            if r3 is Ok {
                lemma_initial_private(
                    s.ram,
                    s3,
                    a,
                    (USER_STACK_BASE + USER_STACK_SIZE) as u64,
                    argv,
                    envp,
                    p.images[0],
                    p.at_base,
                    b,
                );
            }
        }
    }
}

/// Loading a program whose segments lie in the user half changes nothing that
/// programs in any other address space see, whether it succeeds or fails.
pub proof fn law_loading_is_private(
    s: Mem,
    source: u64,
    p: PlanV,
    argv: Seq<Seq<u8>>,
    envp: Seq<Seq<u8>>,
    b: u64,
)
    requires
        s.wf(),
        tables_ok(s.ram, source),
        tables_used(s, source),
        space_ok(s, b),
        user_images(p.images),
    ensures
        space_ok(loaded(s, source, p, argv, envp).0, b),
        same_view(s.ram, loaded(s, source, p, argv, envp).0.ram, b),
{
    if s.frames.take().1 is Some {
        law_new_space_is_private(s, source, b);
        lemma_loaded_undisturbed(s, source, p, argv, envp, Watched::Program(b));
    }
}

/// Loading a program, whether it succeeds or fails and wherever its segments
/// lie, keeps the tables of the address space that the program's is made
/// from in order.
pub proof fn law_loading_keeps_source(s: Mem, source: u64, p: PlanV, argv: Seq<Seq<u8>>, envp: Seq<Seq<u8>>)
    requires
        s.wf(),
        tables_ok(s.ram, source),
        tables_used(s, source),
    ensures
        tables_ok(loaded(s, source, p, argv, envp).0.ram, source),
        tables_used(loaded(s, source, p, argv, envp).0, source),
{
    if s.frames.take().1 is Some {
        law_new_space_beside(s, source);
        lemma_loaded_undisturbed(s, source, p, argv, envp, Watched::Source(source));
    }
}

/// Loading a program, whether it succeeds or fails and wherever its segments
/// lie, keeps the address space that the program's is made from in order.
pub proof fn law_loading_keeps_space(s: Mem, source: u64, p: PlanV, argv: Seq<Seq<u8>>, envp: Seq<Seq<u8>>)
    requires
        s.wf(),
        space_ok(s, source),
    ensures
        space_ok(loaded(s, source, p, argv, envp).0, source),
{
    if s.frames.take().1 is Some {
        law_new_space_beside_space(s, source);
        lemma_loaded_undisturbed(s, source, p, argv, envp, Watched::SourceSpace(source));
    }
}

// ---- The program itself ----

/// After a run of bytes has been written, the address space holds it, and
/// every other byte that a program sees there is as it was.
pub proof fn law_written_bytes(s: Mem, a: u64, at: u64, data: Seq<u8>, what: &'static str, n: int)
    requires
        s.wf(),
        space_ok(s, a),
        0 <= n <= data.len(),
        at + n <= USER_END,
        poked_all(s.ram, a, at, data, what, n).1 is Ok,
    ensures
        ({
            let s1 = Mem { ram: poked_all(s.ram, a, at, data, what, n).0, ..s };
            &&& s1.wf()
            &&& space_ok(s1, a)
            &&& forall|x: u64|
                #![trigger vbyte(s1.ram, a, x)]
                x < USER_END ==> vbyte(s1.ram, a, x) == if at <= x < at + n {
                    Some(data[x - at])
                } else {
                    vbyte(s.ram, a, x)
                }
        }),
    decreases n,
{
    if n > 0 {
        law_written_bytes(s, a, at, data, what, n - 1);
        let s1 = Mem { ram: poked_all(s.ram, a, at, data, what, n - 1).0, ..s };
        let x = at.wrapping_add((n - 1) as u64);
        assert(x == at + n - 1);
        law_poked(s1, a, x, data[n - 1]);
        let s2 = Mem { ram: poked_all(s.ram, a, at, data, what, n).0, ..s };
        assert forall|y: u64|
            #![trigger vbyte(s2.ram, a, y)]
            y < USER_END implies vbyte(s2.ram, a, y) == if at <= y < at + n {
            Some(data[y - at])
        } else {
            vbyte(s.ram, a, y)
        } by {
            lemma_lower(y);
            lemma_same_byte(x, y);
            assert(vbyte(s1.ram, a, y) == if at <= y < at + n - 1 {
                Some(data[y - at])
            } else {
                vbyte(s.ram, a, y)
            });
        }
    }
}

/// Two addresses of the user half in the same page at the same place in it
/// are equal.
pub(crate) proof fn lemma_same_byte(x: u64, y: u64)
    requires
        x < USER_END,
        y < USER_END,
    ensures
        same_page(x, y) && x % 4096 == y % 4096 ==> x == y,
        same_page(x, y) <==> x / 4096 == y / 4096,
{
    reveal(crate::vaddr::index);
    let a = (x - x % 4096) as u64;
    let b = (y - y % 4096) as u64;
    assert(a / 0x1000 == x / 0x1000 && b / 0x1000 == y / 0x1000);
    assert(x / 0x20_0000 == x / 0x1000 / 512 && y / 0x20_0000 == y / 0x1000 / 512);
    assert(x / 0x4000_0000 == x / 0x1000 / 512 / 512 && y / 0x4000_0000 == y / 0x1000 / 512 / 512);
    assert(x / 0x80_0000_0000 == x / 0x1000 / 512 / 512 / 512);
    assert(y / 0x80_0000_0000 == y / 0x1000 / 512 / 512 / 512);
    assert(a / 0x20_0000 == a / 0x1000 / 512 && b / 0x20_0000 == b / 0x1000 / 512);
    assert(a / 0x4000_0000 == a / 0x1000 / 512 / 512 && b / 0x4000_0000 == b / 0x1000 / 512 / 512);
    assert(a / 0x80_0000_0000 == a / 0x1000 / 512 / 512 / 512);
    assert(b / 0x80_0000_0000 == b / 0x1000 / 512 / 512 / 512);
    if same_page(x, y) {
        assert(same_page(a, b));
        lemma_same_page(a, b);
    }
}

/// The byte that a segment has at the address `x`: from the file, or zero.
pub open spec fn segment_byte(seg: SegmentV, x: u64) -> u8 {
    if seg.vaddr <= x && x - seg.vaddr < seg.bytes.len() {
        seg.bytes[x - seg.vaddr]
    } else {
        0
    }
}

/// The pages that a segment touches, counted from zero.
pub open spec fn first_page(seg: SegmentV) -> int {
    (seg.vaddr / 4096) as int
}

pub open spec fn touches(seg: SegmentV, n: int, x: u64) -> bool {
    first_page(seg) <= x / 4096 < first_page(seg) + n
}

/// A segment that has been mapped is in memory: every address of its pages
/// holds the byte from the file or a zero, and no other byte has changed.
pub proof fn law_segment_in_memory(s: Mem, a: u64, seg: SegmentV, n: int)
    requires
        s.wf(),
        space_ok(s, a),
        in_user_half(seg),
        0 <= n <= segment_pages(seg),
        segment_mapped(s, a, seg, n).1 is Ok,
    ensures
        ({
            let s1 = segment_mapped(s, a, seg, n).0;
            &&& s1.wf()
            &&& space_ok(s1, a)
            &&& forall|x: u64|
                #![trigger vbyte(s1.ram, a, x)]
                x < USER_END ==> vbyte(s1.ram, a, x) == if touches(seg, n, x) {
                    Some(segment_byte(seg, x))
                } else {
                    vbyte(s.ram, a, x)
                }
        }),
    decreases n,
{
    if n > 0 {
        law_segment_in_memory(s, a, seg, n - 1);
        let s1 = segment_mapped(s, a, seg, n - 1).0;
        let at = page_address(seg, n - 1);
        let data = segment_page(seg, n - 1);
        lemma_flags(seg);
        lemma_page_address(seg, n - 1);
        law_placed(s1, a, at, segment_flags(seg), data, NO_ROOM);
        let s2 = segment_mapped(s, a, seg, n).0;
        assert forall|x: u64|
            #![trigger vbyte(s2.ram, a, x)]
            x < USER_END implies vbyte(s2.ram, a, x) == if touches(seg, n, x) {
            Some(segment_byte(seg, x))
        } else {
            vbyte(s.ram, a, x)
        } by {
            lemma_lower(x);
            lemma_same_byte(at, x);
            assert(at / 4096 == first_page(seg) + n - 1);
            assert(vbyte(s1.ram, a, x) == if touches(seg, n - 1, x) {
                Some(segment_byte(seg, x))
            } else {
                vbyte(s.ram, a, x)
            });
            if same_page(at, x) {
                let k = (x % 4096) as int;
                assert(x == at + k);
                assert(4096 * (n - 1) + k - seg.vaddr % 4096 == x - seg.vaddr);
                assert(data[k] == segment_byte(seg, x));
            }
        }
    }
}

/// Whether two segments have no page in common.
pub open spec fn pages_apart(a: SegmentV, b: SegmentV) -> bool {
    first_page(a) + segment_pages(a) <= first_page(b) || first_page(b) + segment_pages(b) <= first_page(a)
}

/// Of segments that have no page in common, every one is in memory after they
/// have all been mapped.
pub proof fn law_segments_in_memory(s: Mem, a: u64, segs: Seq<SegmentV>, n: int, k: int, x: u64)
    requires
        s.wf(),
        space_ok(s, a),
        0 <= k < n <= segs.len(),
        forall|i: int| 0 <= i < segs.len() ==> in_user_half(#[trigger] segs[i]),
        forall|i: int, j: int| 0 <= i < j < segs.len() ==> pages_apart(#[trigger] segs[i], #[trigger] segs[j]),
        segments_mapped(s, a, segs, n).1 is Ok,
        segs[k].vaddr <= x < segs[k].vaddr + segs[k].mem_size,
    ensures
        vbyte(segments_mapped(s, a, segs, n).0.ram, a, x) == Some(segment_byte(segs[k], x)),
    decreases n,
{
    let s1 = segments_mapped(s, a, segs, n - 1).0;
    lemma_segments_ok(s, a, segs, n - 1);
    let seg = segs[n - 1];
    law_segment_in_memory(s1, a, seg, segment_pages(seg));
    let s2 = segments_mapped(s, a, segs, n).0;
    assert(in_user_half(segs[k]));
    assert(touches(segs[k], segment_pages(segs[k]), x));
    assert(vbyte(s2.ram, a, x) == if touches(seg, segment_pages(seg), x) {
        Some(segment_byte(seg, x))
    } else {
        vbyte(s1.ram, a, x)
    });
    if k < n - 1 {
        law_segments_in_memory(s, a, segs, n - 1, k, x);
        assert(pages_apart(segs[k], segs[n - 1]));
    }
}

proof fn lemma_segments_ok(s: Mem, a: u64, segs: Seq<SegmentV>, n: int)
    requires
        s.wf(),
        space_ok(s, a),
        0 <= n <= segs.len(),
        forall|i: int| 0 <= i < segs.len() ==> in_user_half(#[trigger] segs[i]),
        segments_mapped(s, a, segs, n).1 is Ok,
    ensures
        segments_mapped(s, a, segs, n).0.wf(),
        space_ok(segments_mapped(s, a, segs, n).0, a),
    decreases n,
{
    if n > 0 {
        lemma_segments_ok(s, a, segs, n - 1);
        let s1 = segments_mapped(s, a, segs, n - 1).0;
        law_segment_in_memory(s1, a, segs[n - 1], segment_pages(segs[n - 1]));
    }
}

/// Bytes that could all be written lie in the user half.
pub(crate) proof fn lemma_written_range(ram: Seq<u64>, a: u64, at: u64, data: Seq<u8>, what: &'static str, n: int)
    requires
        0 < n <= data.len(),
        data.len() <= u64::MAX,
        poked_all(ram, a, at, data, what, n).1 is Ok,
    ensures
        at + n <= USER_END,
    decreases n,
{
    if n > 1 {
        lemma_written_range(ram, a, at, data, what, n - 1);
    }
    let before = poked_all(ram, a, at, data, what, n - 1).0;
    assert(poked(before, a, at.wrapping_add((n - 1) as u64), data[n - 1]) is Some);
}

/// Whether a run of bytes stands at `at`.
pub open spec fn holds(ram: Seq<u64>, a: u64, at: u64, text: Seq<u8>) -> bool {
    at + text.len() <= USER_END && forall|k: int|
        0 <= k < text.len() ==> #[trigger] vbyte(ram, a, (at + k) as u64) == Some(text[k])
}

/// Writes below a run of bytes leave it standing.
proof fn lemma_holds_on(ram: Seq<u64>, after: Seq<u64>, a: u64, at: u64, text: Seq<u8>)
    requires
        holds(ram, a, at, text),
        forall|x: u64| at <= x < USER_END ==> #[trigger] vbyte(after, a, x) == vbyte(ram, a, x),
    ensures
        holds(after, a, at, text),
{
    assert forall|k: int| 0 <= k < text.len() implies #[trigger] vbyte(after, a, (at + k) as u64) == Some(
        text[k],
    ) by {
        assert(vbyte(ram, a, (at + k) as u64) == Some(text[k]));
    }
}

/// The strings that were written stand below `cursor`, each at its address,
/// and nothing at or above `cursor` has changed.
#[verifier::spinoff_prover]
pub(crate) proof fn lemma_strings(s: Mem, a: u64, cursor: u64, strings: Seq<Seq<u8>>, n: int)
    requires
        s.wf(),
        space_ok(s, a),
        cursor <= USER_END,
        0 <= n <= strings.len(),
        forall|i: int| 0 <= i < strings.len() ==> (#[trigger] strings[i]).len() < u64::MAX,
        strings_written(s.ram, a, cursor, strings, n).1 is Ok,
    ensures
        ({
            let (ram, r) = strings_written(s.ram, a, cursor, strings, n);
            let (c, addrs) = r->Ok_0;
            let s1 = Mem { ram, ..s };
            &&& s1.wf()
            &&& space_ok(s1, a)
            &&& c + n <= cursor
            &&& addrs.len() == n
            &&& forall|i: int|
                0 <= i < n ==> c <= #[trigger] addrs[i] && holds(ram, a, addrs[i], strings[i].push(0))
            &&& forall|x: u64| cursor <= x < USER_END ==> #[trigger] vbyte(ram, a, x) == vbyte(s.ram, a, x)
        }),
    decreases n,
{
    if n > 0 {
        lemma_strings(s, a, cursor, strings, n - 1);
        let (before, r) = strings_written(s.ram, a, cursor, strings, n - 1);
        let (c, addrs) = r->Ok_0;
        let s1 = Mem { ram: before, ..s };
        let text = strings[n - 1].push(0);
        let len = text.len() as int;
        let at = c.wrapping_sub(text.len() as u64);
        lemma_written_range(before, a, at, text, UNMAPPED_STACK, len);
        assert(at + len == c);
        law_written_bytes(s1, a, at, text, UNMAPPED_STACK, len);
        let after = strings_written(s.ram, a, cursor, strings, n).0;
        let all = (strings_written(s.ram, a, cursor, strings, n).1->Ok_0).1;
        assert(all == addrs.push(at));
        assert forall|x: u64| c <= x < USER_END implies #[trigger] vbyte(after, a, x) == vbyte(before, a, x) by {}
        assert forall|i: int| 0 <= i < n implies at <= #[trigger] all[i] && holds(
            after,
            a,
            all[i],
            strings[i].push(0),
        ) by {
            if i < n - 1 {
                assert(all[i] == addrs[i]);
                lemma_holds_on(before, after, a, addrs[i], strings[i].push(0));
            } else {
                assert forall|k: int| 0 <= k < text.len() implies #[trigger] vbyte(after, a, (at + k) as u64) == Some(
                    text[k],
                ) by {}
            }
        }
        assert forall|x: u64| cursor <= x < USER_END implies #[trigger] vbyte(after, a, x) == vbyte(s.ram, a, x) by {
            assert(vbyte(before, a, x) == vbyte(s.ram, a, x));
        }
    }
}

pub(crate) proof fn lemma_word_bytes(words: Seq<u64>)
    ensures
        word_bytes(words).len() == 8 * words.len(),
    decreases words.len(),
{
    if words.len() > 0 {
        lemma_word_bytes(words.drop_last());
    }
}

/// Bytes that were written stand where they were put, and nothing above them
/// has changed.
#[verifier::spinoff_prover]
#[verifier::rlimit(40)]
proof fn lemma_put(s: Mem, a: u64, at: u64, bytes: Seq<u8>, unmapped: &'static str, n: int)
    requires
        s.wf(),
        space_ok(s, a),
        n == bytes.len(),
        0 < n <= u64::MAX,
        poked_all(s.ram, a, at, bytes, unmapped, n).1 is Ok,
    ensures
        ({
            let ram = poked_all(s.ram, a, at, bytes, unmapped, n).0;
            &&& (Mem { ram, ..s }).wf()
            &&& space_ok(Mem { ram, ..s }, a)
            &&& at + n <= USER_END
            &&& holds(ram, a, at, bytes)
            &&& forall|x: u64| at + n <= x < USER_END ==> #[trigger] vbyte(ram, a, x) == vbyte(s.ram, a, x)
        }),
{
    lemma_written_range(s.ram, a, at, bytes, unmapped, n);
    law_written_bytes(s, a, at, bytes, unmapped, n);
    let ram = poked_all(s.ram, a, at, bytes, unmapped, n).0;
    assert forall|k: int| 0 <= k < bytes.len() implies #[trigger] vbyte(ram, a, (at + k) as u64) == Some(
        bytes[k],
    ) by {}
}

/// The seed and the start words stand below `c`, and nothing at or above it
/// has changed.
#[verifier::spinoff_prover]
#[verifier::rlimit(40)]
pub(crate) proof fn lemma_stack_tail(s: Mem, a: u64, c: u64, words: Seq<u64>)
    requires
        s.wf(),
        space_ok(s, a),
        c <= USER_END,
        0 < words.len() <= 0x2_0000_0000_0000,
        ({
            let random = down16(c.wrapping_sub(16));
            let (r3, x3) = poked_all(s.ram, a, random, seed(), UNMAPPED_STACK, 16);
            let sp = down16(random.wrapping_sub((words.len() as u64).wrapping_mul(8)));
            let bytes = word_bytes(words);
            x3 is Ok && poked_all(r3, a, sp, bytes, UNMAPPED_RELOCATION, bytes.len() as int).1 is Ok
        }),
    ensures
        ({
            let random = down16(c.wrapping_sub(16));
            let r3 = poked_all(s.ram, a, random, seed(), UNMAPPED_STACK, 16).0;
            let sp = down16(random.wrapping_sub((words.len() as u64).wrapping_mul(8)));
            let bytes = word_bytes(words);
            let r4 = poked_all(r3, a, sp, bytes, UNMAPPED_RELOCATION, bytes.len() as int).0;
            &&& holds(r4, a, sp, bytes)
            &&& holds(r4, a, random, seed())
            &&& forall|x: u64| c <= x < USER_END ==> #[trigger] vbyte(r4, a, x) == vbyte(s.ram, a, x)
        }),
{
    let random = down16(c.wrapping_sub(16));
    let r3 = poked_all(s.ram, a, random, seed(), UNMAPPED_STACK, 16).0;
    assert(seed().len() == 16) by {
        reveal(seed);
    }
    lemma_put(s, a, random, seed(), UNMAPPED_STACK, 16);
    assert(random + 16 <= c);
    let s3 = Mem { ram: r3, ..s };
    let sp = down16(random.wrapping_sub((words.len() as u64).wrapping_mul(8)));
    let bytes = word_bytes(words);
    lemma_word_bytes(words);
    let n = bytes.len() as int;
    lemma_put(s3, a, sp, bytes, UNMAPPED_RELOCATION, n);
    assert((words.len() as u64).wrapping_mul(8) == n);
    assert(sp + n <= random);
    let r4 = poked_all(r3, a, sp, bytes, UNMAPPED_RELOCATION, n).0;
    lemma_holds_on(r3, r4, a, random, seed());
    assert forall|x: u64| c <= x < USER_END implies #[trigger] vbyte(r4, a, x) == vbyte(s.ram, a, x) by {
        assert(vbyte(r3, a, x) == vbyte(s.ram, a, x));
    }
}

/// A program starts with its stack pointer at a multiple of 16, where it
/// finds its start words: how many arguments it has, where each of them is,
/// where each string of its environment is, and the auxiliary vector. Each of
/// those strings stands where the words say.
#[verifier::spinoff_prover]
#[verifier::rlimit(60)]
pub proof fn law_program_finds_its_arguments(
    s: Mem,
    a: u64,
    top: u64,
    argv: Seq<Seq<u8>>,
    envp: Seq<Seq<u8>>,
    image: ImageV,
    at_base: u64,
)
    requires
        s.wf(),
        space_ok(s, a),
        top <= USER_END,
        forall|i: int| 0 <= i < argv.len() ==> (#[trigger] argv[i]).len() < u64::MAX,
        forall|i: int| 0 <= i < envp.len() ==> (#[trigger] envp[i]).len() < u64::MAX,
        initial_stack(s.ram, a, top, argv, envp, image, at_base).1 is Ok,
    ensures
        ({
            let (ram, r) = initial_stack(s.ram, a, top, argv, envp, image, at_base);
            let sp = r->Ok_0;
            &&& sp % 16 == 0
            &&& exists|args: Seq<u64>, vars: Seq<u64>, random: u64|
                #![trigger start_words(args, vars, auxv(image, at_base, random))]
                {
                    &&& args.len() == argv.len()
                    &&& vars.len() == envp.len()
                    &&& holds(ram, a, sp, word_bytes(start_words(args, vars, auxv(image, at_base, random))))
                    &&& holds(ram, a, random, seed())
                    &&& forall|i: int| 0 <= i < argv.len() ==> holds(ram, a, #[trigger] args[i], argv[i].push(0))
                    &&& forall|i: int| 0 <= i < envp.len() ==> holds(ram, a, #[trigger] vars[i], envp[i].push(0))
                }
        }),
{
    reveal(stack_finished);
    let (r1, x1) = strings_written(s.ram, a, top, argv, argv.len() as int);
    let (c1, args) = x1->Ok_0;
    lemma_strings(s, a, top, argv, argv.len() as int);
    let s1 = Mem { ram: r1, ..s };
    let (r2, x2) = strings_written(r1, a, c1, envp, envp.len() as int);
    let (c2, vars) = x2->Ok_0;
    lemma_strings(s1, a, c1, envp, envp.len() as int);
    let s2 = Mem { ram: r2, ..s };
    let random = down16(c2.wrapping_sub(16));
    let r3 = poked_all(r2, a, random, seed(), UNMAPPED_STACK, 16).0;
    let words = start_words(args, vars, auxv(image, at_base, random));
    let sp = down16(random.wrapping_sub((words.len() as u64).wrapping_mul(8)));
    let bytes = word_bytes(words);
    let r4 = poked_all(r3, a, sp, bytes, UNMAPPED_RELOCATION, bytes.len() as int).0;
    assert(auxv(image, at_base, random).len() == 28) by {
        reveal(auxv);
    }
    assert(words.len() == argv.len() + envp.len() + 31);
    lemma_stack_tail(s2, a, c2, words);
    assert forall|i: int| 0 <= i < argv.len() implies holds(r4, a, #[trigger] args[i], argv[i].push(0)) by {
        assert(c1 <= args[i]);
        lemma_holds_on(r1, r2, a, args[i], argv[i].push(0));
        lemma_holds_on(r2, r4, a, args[i], argv[i].push(0));
    }
    assert forall|i: int| 0 <= i < envp.len() implies holds(r4, a, #[trigger] vars[i], envp[i].push(0)) by {
        assert(c2 <= vars[i]);
        lemma_holds_on(r2, r4, a, vars[i], envp[i].push(0));
    }
    assert(start_words(args, vars, auxv(image, at_base, random)) == words);
}

/// Of the words from `from` on, which are pairs of a tag and its value, a
/// pair with a tag has a value, and it comes before the end, which is a zero
/// tag.
pub open spec fn told(words: Seq<u64>, from: int, tag: u64, value: u64) -> bool {
    exists|i: int|
        0 <= i && from + 2 * i + 1 < words.len() && #[trigger] pair_at(words, from, i) == (tag, value) && forall|j: int|
            0 <= j < i ==> (#[trigger] pair_at(words, from, j)).0 != 0
}

pub open spec fn pair_at(words: Seq<u64>, from: int, i: int) -> (u64, u64) {
    (words[from + 2 * i], words[from + 2 * i + 1])
}

/// The words that a program starts with are the number of its arguments,
/// where each is, a zero, where each string of its environment is, a zero, and
/// pairs: its program headers (3), the size of one (4) and their number (5),
/// the size of a page (6), where its interpreter is (7), its entry (9), and
/// where its random bytes are (25). It is told that nobody in particular runs
/// it (11, 12, 13, 14) and that this is no secure start (23).
#[verifier::spinoff_prover]
#[verifier::rlimit(60)]
pub proof fn law_start_words(args: Seq<u64>, vars: Seq<u64>, image: ImageV, at_base: u64, random: u64)
    requires
        args.len() <= u64::MAX,
    ensures
        ({
            let w = start_words(args, vars, auxv(image, at_base, random));
            let n = args.len() as int;
            let m = vars.len() as int;
            let from = n + m + 3;
            &&& w[0] == n
            &&& forall|i: int| 0 <= i < n ==> #[trigger] args[i] == w[1 + i]
            &&& w[n + 1] == 0
            &&& forall|i: int| 0 <= i < m ==> #[trigger] vars[i] == w[n + 2 + i]
            &&& w[n + m + 2] == 0
            &&& told(w, from, 3, image.phdr_vaddr)
            &&& told(w, from, 4, image.phentsize)
            &&& told(w, from, 5, image.phnum)
            &&& told(w, from, 6, 4096)
            &&& told(w, from, 7, at_base)
            &&& told(w, from, 8, 0)
            &&& told(w, from, 9, image.entry)
            &&& told(w, from, 11, 0)
            &&& told(w, from, 12, 0)
            &&& told(w, from, 13, 0)
            &&& told(w, from, 14, 0)
            &&& told(w, from, 23, 0)
            &&& told(w, from, 25, random)
            &&& told(w, from, 0, 0)
            &&& w.len() == from + 28
        }),
{
    let w = start_words(args, vars, auxv(image, at_base, random));
    let from = args.len() as int + vars.len() as int + 3;
    lemma_pairs(w, from, image, at_base, random, args, vars);
    assert(pair_at(w, from, 0).0 == 3);
    assert(pair_at(w, from, 1).0 == 4);
    assert(pair_at(w, from, 2).0 == 5);
    assert(pair_at(w, from, 3).0 == 6);
    assert(pair_at(w, from, 4).0 == 7);
    assert(pair_at(w, from, 5).0 == 8);
    assert(pair_at(w, from, 6).0 == 9);
    assert(pair_at(w, from, 7).0 == 11);
    assert(pair_at(w, from, 8).0 == 12);
    assert(pair_at(w, from, 9).0 == 13);
    assert(pair_at(w, from, 10).0 == 14);
    assert(pair_at(w, from, 11).0 == 23);
    assert(pair_at(w, from, 12).0 == 25);
    assert(pair_at(w, from, 13).0 == 0);
}

proof fn lemma_pairs(
    w: Seq<u64>,
    from: int,
    image: ImageV,
    at_base: u64,
    random: u64,
    args: Seq<u64>,
    vars: Seq<u64>,
)
    requires
        args.len() <= u64::MAX,
        w == start_words(args, vars, auxv(image, at_base, random)),
        from == args.len() + vars.len() + 3,
    ensures
        w.len() == from + 28,
        w[0] == args.len(),
        forall|i: int| 0 <= i < args.len() ==> #[trigger] args[i] == w[1 + i],
        w[args.len() as int + 1] == 0,
        forall|i: int| 0 <= i < vars.len() ==> #[trigger] vars[i] == w[args.len() as int + 2 + i],
        w[from - 1] == 0,
        pair_at(w, from, 0) == (3u64, image.phdr_vaddr),
        pair_at(w, from, 1) == (4u64, image.phentsize),
        pair_at(w, from, 2) == (5u64, image.phnum),
        pair_at(w, from, 3) == (6u64, 4096u64),
        pair_at(w, from, 4) == (7u64, at_base),
        pair_at(w, from, 5) == (8u64, 0u64),
        pair_at(w, from, 6) == (9u64, image.entry),
        pair_at(w, from, 7) == (11u64, 0u64),
        pair_at(w, from, 8) == (12u64, 0u64),
        pair_at(w, from, 9) == (13u64, 0u64),
        pair_at(w, from, 10) == (14u64, 0u64),
        pair_at(w, from, 11) == (23u64, 0u64),
        pair_at(w, from, 12) == (25u64, random),
        pair_at(w, from, 13) == (0u64, 0u64),
{
    reveal(auxv);
}

/// Words are in memory one behind the other, each with its low byte first.
pub proof fn law_words_in_memory(words: Seq<u64>, i: int)
    requires
        0 <= i < words.len(),
    ensures
        word_bytes(words).len() == 8 * words.len(),
        crate::elf_format::quad(word_bytes(words), 8 * i) == words[i],
    decreases words.len(),
{
    let b = word_bytes(words);
    let last = words.len() - 1;
    lemma_word_bytes(words);
    lemma_word_bytes(words.drop_last());
    if i < last {
        law_words_in_memory(words.drop_last(), i);
        let c = word_bytes(words.drop_last());
        assert(b.subrange(8 * i, 8 * i + 8) =~= c.subrange(8 * i, 8 * i + 8));
        lemma_same_quad(b, c, 8 * i);
    } else {
        assert(b.subrange(8 * i, 8 * i + 8) =~= bytes64(words[i]));
        crate::linux_laws::lemma_le64_of_bytes64(b, 8 * i, words[i]);
        crate::elf_format::law_numbers(b, 8 * i);
    }
}

proof fn lemma_same_quad(b: Seq<u8>, c: Seq<u8>, i: int)
    requires
        0 <= i,
        i + 8 <= b.len(),
        i + 8 <= c.len(),
        b.subrange(i, i + 8) == c.subrange(i, i + 8),
    ensures
        crate::elf_format::quad(b, i) == crate::elf_format::quad(c, i),
{
    reveal(crate::elf_format::quad);
    reveal(crate::elf_format::word);
    reveal(crate::elf_format::half);
    assert forall|k: int| i <= k < i + 8 implies b[k] == c[k] by {
        assert(b[k] == b.subrange(i, i + 8)[k - i]);
        assert(c[k] == c.subrange(i, i + 8)[k - i]);
    }
}

} // verus!
