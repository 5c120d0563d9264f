//! Little-endian integers inside byte sequences.
use vstd::prelude::*;

verus! {

/// The 16-bit little-endian integer stored at `i`.
pub open spec fn le16(s: Seq<u8>, i: int) -> u16 {
    (s[i] + 0x100 * s[i + 1]) as u16
}

/// The 32-bit little-endian integer stored at `i`.
pub open spec fn le32(s: Seq<u8>, i: int) -> u32 {
    (le16(s, i) + 0x1_0000 * le16(s, i + 2)) as u32
}

/// The 64-bit little-endian integer stored at `i`.
pub open spec fn le64(s: Seq<u8>, i: int) -> u64 {
    (le32(s, i) + 0x1_0000_0000 * le32(s, i + 4)) as u64
}

/// The two bytes of `v`, low byte first.
pub open spec fn bytes16(v: u16) -> Seq<u8> {
    seq![(v % 0x100) as u8, (v / 0x100) as u8]
}

/// The four bytes of `v`, low byte first.
pub open spec fn bytes32(v: u32) -> Seq<u8> {
    bytes16((v % 0x1_0000) as u16) + bytes16((v / 0x1_0000) as u16)
}

/// The eight bytes of `v`, low byte first.
pub open spec fn bytes64(v: u64) -> Seq<u8> {
    bytes32((v % 0x1_0000_0000) as u32) + bytes32((v / 0x1_0000_0000) as u32)
}

pub fn get16(s: &[u8], i: usize) -> (r: u16)
    requires
        i + 2 <= s.len(),
    ensures
        r == le16(s@, i as int),
{
    s[i] as u16 + 0x100 * (s[i + 1] as u16)
}

pub fn get32(s: &[u8], i: usize) -> (r: u32)
    requires
        i + 4 <= s.len(),
    ensures
        r == le32(s@, i as int),
{
    get16(s, i) as u32 + 0x1_0000 * (get16(s, i + 2) as u32)
}

pub fn get64(s: &[u8], i: usize) -> (r: u64)
    requires
        i + 8 <= s.len(),
    ensures
        r == le64(s@, i as int),
{
    get32(s, i) as u64 + 0x1_0000_0000 * (get32(s, i + 4) as u64)
}

pub fn put16(out: &mut Vec<u8>, v: u16)
    ensures
        final(out)@ == old(out)@ + bytes16(v),
{
    out.push((v % 0x100) as u8);
    out.push((v / 0x100) as u8);
    assert(out@ =~= old(out)@ + bytes16(v));
}

pub fn put32(out: &mut Vec<u8>, v: u32)
    ensures
        final(out)@ == old(out)@ + bytes32(v),
{
    put16(out, (v % 0x1_0000) as u16);
    put16(out, (v / 0x1_0000) as u16);
    assert(out@ =~= old(out)@ + bytes32(v));
}

pub fn put64(out: &mut Vec<u8>, v: u64)
    ensures
        final(out)@ == old(out)@ + bytes64(v),
{
    put32(out, (v % 0x1_0000_0000) as u32);
    put32(out, (v / 0x1_0000_0000) as u32);
    assert(out@ =~= old(out)@ + bytes64(v));
}

/// Reading back the bytes of a 16-bit integer gives the integer.
pub proof fn lemma_le16_of_bytes16(s: Seq<u8>, i: int, v: u16)
    requires
        0 <= i,
        i + 2 <= s.len(),
        s.subrange(i, i + 2) == bytes16(v),
    ensures
        le16(s, i) == v,
{
    assert(s[i] == s.subrange(i, i + 2)[0]);
    assert(s[i + 1] == s.subrange(i, i + 2)[1]);
}

/// Reading back the bytes of a 32-bit integer gives the integer.
pub proof fn lemma_le32_of_bytes32(s: Seq<u8>, i: int, v: u32)
    requires
        0 <= i,
        i + 4 <= s.len(),
        s.subrange(i, i + 4) == bytes32(v),
    ensures
        le32(s, i) == v,
{
    let b = s.subrange(i, i + 4);
    assert(s.subrange(i, i + 2) =~= bytes16((v % 0x1_0000) as u16)) by {
        assert(forall|k: int| 0 <= k < 2 ==> s.subrange(i, i + 2)[k] == b[k]);
    }
    assert(s.subrange(i + 2, i + 4) =~= bytes16((v / 0x1_0000) as u16)) by {
        assert(forall|k: int| 0 <= k < 2 ==> #[trigger] s.subrange(i + 2, i + 4)[k] == b[k + 2]);
    }
    lemma_le16_of_bytes16(s, i, (v % 0x1_0000) as u16);
    lemma_le16_of_bytes16(s, i + 2, (v / 0x1_0000) as u16);
}

/// The bytes of the integer stored at `i` are the bytes stored there.
pub proof fn lemma_bytes64_of_le64(s: Seq<u8>, i: int)
    requires
        0 <= i,
        i + 8 <= s.len(),
    ensures
        bytes64(le64(s, i)) == s.subrange(i, i + 8),
{
    let a = le32(s, i);
    let b = le32(s, i + 4);
    assert(le64(s, i) % 0x1_0000_0000 == a);
    assert(le64(s, i) / 0x1_0000_0000 == b);
    assert(a % 0x1_0000 == le16(s, i) && a / 0x1_0000 == le16(s, i + 2));
    assert(b % 0x1_0000 == le16(s, i + 4) && b / 0x1_0000 == le16(s, i + 6));
    assert(bytes64(le64(s, i)) =~= s.subrange(i, i + 8));
}

} // verus!
