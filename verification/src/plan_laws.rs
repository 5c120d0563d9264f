//! Which files make up a program, where each of them goes, and where the
//! program starts.
use crate::elf::elf_image;
use crate::loader::{flat_image, format_of, libraries, planned, program_image, Format, ImageV};
use crate::volume::{content, Place, Volume};
use vstd::prelude::*;

verus! {

/// A file is an ELF file if it starts with 7F and `ELF`, a PE file if it
/// starts with `MZ`, and else a program as it is.
pub proof fn law_formats(b: Seq<u8>)
    ensures
        format_of(b) == Format::Elf <==> b.len() >= 4 && b.take(4) == seq![0x7Fu8, 0x45, 0x4C, 0x46],
        format_of(b) == Format::Pe <==> b.len() >= 2 && b.take(2) == seq![0x4Du8, 0x5A],
{
    if b.len() >= 4 {
        assert(b.take(4) =~= seq![b[0], b[1], b[2], b[3]]);
        assert(b.take(4)[0] == b[0] && b.take(4)[1] == b[1] && b.take(4)[2] == b[2] && b.take(4)[3] == b[3]);
    }
    if b.len() >= 2 {
        assert(b.take(2) =~= seq![b[0], b[1]]);
        assert(b.take(2)[0] == b[0] && b.take(2)[1] == b[1]);
    }
}

/// A program as it is goes to 0x40_0000_0000, whole and writable, and starts
/// with its first byte.
pub proof fn law_flat_program(b: Seq<u8>)
    requires
        b.len() <= u64::MAX,
    ensures
        ({
            let x = flat_image(b);
            &&& x.entry == 0x40_0000_0000
            &&& x.segments.len() == 1
            &&& x.segments[0].vaddr == x.entry
            &&& x.segments[0].mem_size == b.len()
            &&& x.segments[0].bytes == b
            &&& x.segments[0].writable
            &&& x.relocations.len() == 0 && x.externs.len() == 0 && x.needed.len() == 0 && x.interp is None
        }),
{
}

/// Whether an image is the ELF file that a path leads to, placed at `base`.
pub open spec fn placed_file(v: Volume, at: Place, path: Seq<u8>, base: u64, x: ImageV) -> bool {
    &&& content(v, at, path) matches Ok(b)
    &&& b.len() >= 4
    &&& b[0] == 0x7F && b[1] == 0x45 && b[2] == 0x4C && b[3] == 0x46
    &&& elf_image(b, Some(base)) == Ok::<ImageV, &'static str>(x)
}

proof fn lemma_libraries(v: Volume, at: Place, needed: Seq<Seq<u8>>, n: int, i: int)
    requires
        0 <= i < n <= 8,
        libraries(v, at, needed, n) is Ok,
    ensures
        libraries(v, at, needed, n)->Ok_0.len() == n,
        placed_file(
            v,
            at,
            needed[i],
            (0x44_0000_0000 + i * 0x1000_0000) as u64,
            libraries(v, at, needed, n)->Ok_0[i],
        ),
    decreases n,
{
    assert(libraries(v, at, needed, 0) == Ok::<Seq<ImageV>, &'static str>(Seq::empty()));
    if n > 1 {
        if i < n - 1 {
            lemma_libraries(v, at, needed, n - 1, i);
        } else {
            lemma_libraries(v, at, needed, n - 1, 0);
        }
    }
}

/// A program with a linker of its own is loaded with it, at 0x46_0000_0000,
/// and starts there. Any other starts at its own entry, with every library
/// that it needs, at most eight, in its order: each has a quarter of a
/// gibibyte from 0x44_0000_0000 on.
pub proof fn law_plan(v: Volume, at: Place, bytes: Seq<u8>, i: int)
    requires
        planned(v, at, bytes) is Ok,
    ensures
        ({
            let p = planned(v, at, bytes)->Ok_0;
            let image = program_image(bytes)->Ok_0;
            &&& program_image(bytes) is Ok
            &&& p.images.len() > 0 && p.images[0] == image
            &&& match image.interp {
                Some(path) => {
                    &&& p.images.len() == 2
                    &&& placed_file(v, at, path, 0x46_0000_0000, p.images[1])
                    &&& p.entry == p.images[1].entry
                    &&& p.at_base == 0x46_0000_0000
                    &&& !p.eager
                },
                None => {
                    &&& image.needed.len() <= 8
                    &&& p.images.len() == 1 + image.needed.len()
                    &&& p.entry == image.entry
                    &&& p.at_base == 0
                    &&& p.eager
                    &&& 0 <= i < image.needed.len() ==> placed_file(
                        v,
                        at,
                        image.needed[i],
                        (0x44_0000_0000 + i * 0x1000_0000) as u64,
                        p.images[1 + i],
                    )
                },
            }
        }),
{
    let image = program_image(bytes)->Ok_0;
    if image.interp is None {
        let n = image.needed.len() as int;
        assert(libraries(v, at, image.needed, 0) == Ok::<Seq<ImageV>, &'static str>(Seq::empty()));
        if 0 <= i < n {
            lemma_libraries(v, at, image.needed, n, i);
        } else if n > 0 {
            lemma_libraries(v, at, image.needed, n, 0);
        }
    }
}

} // verus!
