//! Physical memory as the kernel sees it through the direct map: a run of
//! 64-bit words starting at physical address zero, readable by the byte.
use crate::le::{bytes64, get64, le64, lemma_bytes64_of_le64, put64};
use vstd::prelude::*;

verus! {

/// The byte at physical address `a`.
pub open spec fn byte_at(ram: Seq<u64>, a: int) -> u8 {
    bytes64(ram[a / 8])[a % 8]
}

/// Whether `phys` is the address of a frame that lies wholly in memory.
pub open spec fn in_ram(ram: Seq<u64>, phys: u64) -> bool {
    phys % 4096 == 0 && phys + 4096 <= ram.len() * 8
}

/// Memory with one frame filled with zeros.
pub open spec fn zeroed(ram: Seq<u64>, phys: u64) -> Seq<u64> {
    Seq::new(
        ram.len(),
        |i: int|
            if phys / 8 <= i < phys / 8 + 512 {
                0u64
            } else {
                ram[i]
            },
    )
}

/// Memory with one byte changed.
pub open spec fn with_byte(ram: Seq<u64>, a: int, v: u8) -> Seq<u64> {
    ram.update(a / 8, le64(bytes64(ram[a / 8]).update(a % 8, v), 0))
}

/// Memory with the bytes of `data` stored from `a` on.
pub open spec fn with_bytes(ram: Seq<u64>, a: int, data: Seq<u8>) -> Seq<u64>
    decreases data.len(),
{
    if data.len() == 0 {
        ram
    } else {
        with_byte(with_bytes(ram, a, data.drop_last()), a + data.len() - 1, data.last())
    }
}

/// Storing one byte changes that byte and no other.
pub proof fn lemma_with_byte(ram: Seq<u64>, a: int, v: u8)
    requires
        0 <= a < ram.len() * 8,
    ensures
        with_byte(ram, a, v).len() == ram.len(),
        forall|b: int|
            0 <= b < ram.len() * 8 ==> #[trigger] byte_at(with_byte(ram, a, v), b) == if b == a {
                v
            } else {
                byte_at(ram, b)
            },
{
    let s = bytes64(ram[a / 8]).update(a % 8, v);
    lemma_bytes64_of_le64(s, 0);
    assert(s.subrange(0, 8) =~= s);
}

/// Storing a run of bytes changes those bytes and no others.
pub proof fn lemma_with_bytes(ram: Seq<u64>, a: int, data: Seq<u8>)
    requires
        0 <= a,
        a + data.len() <= ram.len() * 8,
    ensures
        with_bytes(ram, a, data).len() == ram.len(),
        forall|b: int|
            0 <= b < ram.len() * 8 ==> #[trigger] byte_at(with_bytes(ram, a, data), b) == if a <= b < a
                + data.len() {
                data[b - a]
            } else {
                byte_at(ram, b)
            },
    decreases data.len(),
{
    if data.len() > 0 {
        lemma_with_bytes(ram, a, data.drop_last());
        lemma_with_byte(with_bytes(ram, a, data.drop_last()), a + data.len() - 1, data.last());
    }
}

pub fn load_byte(ram: &Vec<u64>, a: u64) -> (r: u8)
    requires
        a < ram.len() * 8,
    ensures
        r == byte_at(ram@, a as int),
{
    let mut b: Vec<u8> = Vec::new();
    put64(&mut b, ram[(a / 8) as usize]);
    assert(b@ =~= bytes64(ram@[a as int / 8]));
    b[(a % 8) as usize]
}

pub fn store_byte(ram: &mut Vec<u64>, a: u64, v: u8)
    requires
        a < old(ram).len() * 8,
    ensures
        final(ram)@ == with_byte(old(ram)@, a as int, v),
{
    let at: usize = (a / 8) as usize;
    let mut b: Vec<u8> = Vec::new();
    put64(&mut b, ram[at]);
    assert(b@ =~= bytes64(ram@[a as int / 8]));
    b[(a % 8) as usize] = v;
    ram[at] = get64(b.as_slice(), 0);
}

/// Stores `data` from physical address `a` on.
pub fn store_bytes(ram: &mut Vec<u64>, a: u64, data: &[u8])
    requires
        a + data.len() <= old(ram).len() * 8,
        a + data.len() <= u64::MAX,
    ensures
        final(ram)@ == with_bytes(old(ram)@, a as int, data@),
        final(ram).len() == old(ram).len(),
{
    let n: usize = data.len();
    let ghost before = ram@;
    assert(data@.take(0) =~= Seq::empty());
    for i in 0..n
        invariant
            n == data@.len(),
            a + n <= u64::MAX,
            ram@.len() == before.len(),
            a + n <= before.len() * 8,
            ram@ == with_bytes(before, a as int, data@.take(i as int)),
    {
        assert(data@.take(i + 1).drop_last() =~= data@.take(i as int));
        let at: u64 = a + i as u64;
        assert(ram.len() == before.len());
        store_byte(ram, at, data[i]);
    }
    assert(data@.take(n as int) =~= data@);
}

/// Fills one frame with zeros.
pub fn zero_frame(ram: &mut Vec<u64>, phys: u64)
    requires
        in_ram(old(ram)@, phys),
    ensures
        final(ram)@ == zeroed(old(ram)@, phys),
        final(ram).len() == old(ram).len(),
{
    let ghost before = ram@;
    assert(ram.len() == before.len());
    let base: usize = (phys / 8) as usize;
    for i in 0..512usize
        invariant
            base == phys / 8,
            base + 512 <= before.len(),
            ram@.len() == before.len(),
            before.len() <= usize::MAX,
            forall|k: int|
                0 <= k < before.len() ==> #[trigger] ram@[k] == if base <= k < base + i {
                    0u64
                } else {
                    before[k]
                },
    {
        ram[base + i] = 0;
    }
    assert(ram@ =~= zeroed(before, phys));
}

/// Storing a run of bytes leaves the words that it does not reach as they
/// are.
pub proof fn lemma_with_bytes_words(ram: Seq<u64>, a: int, data: Seq<u8>)
    requires
        0 <= a,
        a + data.len() <= ram.len() * 8,
    ensures
        with_bytes(ram, a, data).len() == ram.len(),
        forall|i: int|
            0 <= i < ram.len() && (8 * i + 8 <= a || a + data.len() <= 8 * i)
                ==> #[trigger] with_bytes(ram, a, data)[i] == ram[i],
    decreases data.len(),
{
    if data.len() > 0 {
        lemma_with_bytes_words(ram, a, data.drop_last());
        let k = (a + data.len() - 1) / 8;
        assert(0 <= k < ram.len());
        let before = with_bytes(ram, a, data.drop_last());
        assert forall|i: int|
            0 <= i < ram.len() && (8 * i + 8 <= a || a + data.len() <= 8 * i) implies #[trigger] with_bytes(
            ram,
            a,
            data,
        )[i] == ram[i] by {
            assert(i != k);
            assert(before[i] == ram[i]);
        }
    }
}

} // verus!
