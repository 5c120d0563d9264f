//! Virtual addresses as page tables see them: four nine-bit indices and an
//! offset into the page.
use vstd::prelude::*;

verus! {

/// The index into the table at `level` (0 is the root) that `virt` selects.
#[verifier::opaque]
pub open spec fn index(virt: u64, level: int) -> int {
    if level == 0 {
        (virt / 0x80_0000_0000) as int % 512
    } else if level == 1 {
        (virt / 0x4000_0000) as int % 512
    } else if level == 2 {
        (virt / 0x20_0000) as int % 512
    } else {
        (virt / 0x1000) as int % 512
    }
}

pub broadcast proof fn lemma_index(virt: u64, level: int)
    ensures
        0 <= #[trigger] index(virt, level) < 512,
{
    reveal(index);
}

/// Whether two addresses select the same tables down to `level`.
pub open spec fn same_prefix(v: u64, w: u64, level: int) -> bool {
    &&& level > 0 ==> index(v, 0) == index(w, 0)
    &&& level > 1 ==> index(v, 1) == index(w, 1)
    &&& level > 2 ==> index(v, 2) == index(w, 2)
}

/// Whether two addresses lie in the same page, as far as translation goes:
/// the bits above the 48 that are translated do not count.
pub open spec fn same_page(v: u64, w: u64) -> bool {
    same_prefix(v, w, 3) && index(v, 3) == index(w, 3)
}

/// Page-aligned addresses below the 48 bits that are translated lie in the
/// same page only if they are equal.
pub proof fn lemma_same_page(v: u64, w: u64)
    requires
        v % 4096 == 0,
        w % 4096 == 0,
        v < 0x1_0000_0000_0000,
        w < 0x1_0000_0000_0000,
        same_page(v, w),
    ensures
        v == w,
{
    reveal(index);
    lemma_parts(v);
    lemma_parts(w);
}

/// A page-aligned address is put together from its four indices.
proof fn lemma_parts(v: u64)
    requires
        v % 4096 == 0,
        v < 0x1_0000_0000_0000,
    ensures
        v == 4096 * (512 * (512 * (512 * index(v, 0) + index(v, 1)) + index(v, 2)) + index(v, 3)),
{
    reveal(index);
    let a3 = v / 0x1000;
    let a2 = v / 0x20_0000;
    let a1 = v / 0x4000_0000;
    let a0 = v / 0x80_0000_0000;
    assert(a2 == a3 / 512);
    assert(a1 == a2 / 512);
    assert(a0 == a1 / 512);
    assert(a0 < 512);
}

/// The page-aligned address with four given indices.
pub open spec fn composed(i0: int, i1: int, i2: int, i3: int) -> u64 {
    (4096 * (512 * (512 * (512 * i0 + i1) + i2) + i3)) as u64
}

pub proof fn lemma_composed(i0: int, i1: int, i2: int, i3: int)
    requires
        0 <= i0 < 512,
        0 <= i1 < 512,
        0 <= i2 < 512,
        0 <= i3 < 512,
    ensures
        index(composed(i0, i1, i2, i3), 0) == i0,
        index(composed(i0, i1, i2, i3), 1) == i1,
        index(composed(i0, i1, i2, i3), 2) == i2,
        index(composed(i0, i1, i2, i3), 3) == i3,
{
    reveal(index);
    let v = composed(i0, i1, i2, i3);
    assert(v / 0x1000 == 512 * (512 * (512 * i0 + i1) + i2) + i3);
    assert(v / 0x20_0000 == 512 * (512 * i0 + i1) + i2);
    assert(v / 0x4000_0000 == 512 * i0 + i1);
    assert(v / 0x80_0000_0000 == i0);
}

} // verus!
