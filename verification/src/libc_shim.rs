//! What C programs take from their library: memory from the kernel heap with
//! its size in front of it, the classes of characters, numbers out of text,
//! sorting, and random numbers.
use crate::heap::{
    in_use, kept, law_allocation_is_fresh, link_to, linked, outside, rounded, word, Block, Heap, HeapV, HEAP_BASE,
};
use crate::text::{decimal, digits_value, lemma_decimal_value, lemma_digits_grow};
use vstd::prelude::*;

verus! {

pub const HEADER_SIZE: u64 = 16;

/// The largest block that can be asked for.
pub const MAX_BLOCK: u64 = 0x7FFF_FFFF_FFFF_FFF0;

/// The block of the heap that `ptr` was handed out from, by the size that
/// stands in front of it.
pub open spec fn block_of(h: Heap, ptr: u64) -> Block {
    Block { addr: ptr - HEADER_SIZE, size: rounded(size_at(h, ptr) + HEADER_SIZE) }
}

/// The size that stands in front of `ptr`.
pub open spec fn size_at(h: Heap, ptr: u64) -> int {
    h.memory@[word(ptr - HEADER_SIZE)] as int
}

/// Whether `ptr` is memory that was handed out and not given back.
pub open spec fn handed_out(h: Heap, ptr: u64) -> bool {
    &&& HEAP_BASE + HEADER_SIZE <= ptr
    &&& size_at(h, ptr) + HEADER_SIZE <= MAX_BLOCK
    &&& block_of(h, ptr).wf()
    &&& ptr - HEADER_SIZE + block_of(h, ptr).size <= h.bump
    &&& forall|i: int| 0 <= i < h@.free.len() ==> block_of(h, ptr).apart(#[trigger] h@.free[i])
}

/// Writing into memory that is no freed block leaves the list of those as it
/// is.
proof fn lemma_write_elsewhere(memory: Seq<u64>, after: Seq<u64>, h: HeapV, b: Block)
    requires
        h.wf(),
        b.wf(),
        linked(memory, h.free),
        after.len() == memory.len(),
        forall|i: int| 0 <= i < h.free.len() ==> b.apart(#[trigger] h.free[i]),
        forall|w: int|
            0 <= w < memory.len() && !(word(b.addr) <= w < word(b.addr) + b.size / 8) ==> #[trigger] after[w]
                == memory[w],
        h.limit - HEAP_BASE == 8 * memory.len(),
    ensures
        linked(after, h.free),
{
    assert forall|i: int| #![trigger h.free[i]] 0 <= i < h.free.len() implies after[word(h.free[i].addr)]
        == h.free[i].size && after[word(h.free[i].addr) + 1] == link_to(h.free, i + 1) by {
        assert(h.free[i].wf());
        assert(b.apart(h.free[i]));
    }
}

/// What a request for memory takes: the size, and room for it in front.
pub open spec fn request_ok(size: u64) -> bool {
    0 < size && size + HEADER_SIZE <= MAX_BLOCK
}

/// Hands out `size` bytes, or nothing.
pub fn malloc(h: &mut Heap, size: u64) -> (r: Option<u64>)
    requires
        old(h).wf(),
    ensures
        final(h).wf(),
        if !request_ok(size) {
            r is None && *final(h) == *old(h)
        } else {
            match old(h)@.take(size + HEADER_SIZE) {
                (_, None) => r is None && final(h)@ == old(h)@,
                (h1, Some(a)) => {
                    &&& r matches Some(p) && p == a + HEADER_SIZE
                    &&& final(h)@ == h1
                    &&& handed_out(*final(h), r->0)
                    &&& size_at(*final(h), r->0) == size
                },
            }
        },
        kept(old(h).memory@, final(h).memory@, old(h)@),
{
    if size == 0 || size > MAX_BLOCK - HEADER_SIZE {
        return None;
    }
    let ghost before = h@;
    proof {
        if before.take(size + HEADER_SIZE).1 is Some {
            law_allocation_is_fresh(before, Seq::empty(), size + HEADER_SIZE);
        }
    }
    match h.allocate(size + HEADER_SIZE, 16) {
        None => None,
        Some(a) => {
            let ghost b = Block { addr: a as int, size: rounded(size + HEADER_SIZE) };
            proof {
                let live = Seq::<Block>::empty().push(b);
                assert(live[0] == b);
                assert(in_use(h@, live));
                assert forall|i: int| 0 <= i < h@.free.len() implies b.apart(#[trigger] h@.free[i]) by {
                    assert(live[0].apart(h@.free[i]));
                }
            }
            let ghost mem = h.memory@;
            assert(h.memory.len() == mem.len());
            h.memory[((a - HEAP_BASE) / 8) as usize] = size;
            proof {
                lemma_write_elsewhere(mem, h.memory@, h@, b);
                assert forall|w: int| 0 <= w < word(before.bump) && outside(before.free, w) implies #[trigger] h.memory@[w]
                    == old(h).memory@[w] by {
                    lemma_taken_place(before, size + HEADER_SIZE, w);
                    assert(mem[w] == old(h).memory@[w]);
                }
            }
            Some(a + HEADER_SIZE)
        },
    }
}

/// Takes back what was handed out.
pub fn free(h: &mut Heap, ptr: u64)
    requires
        old(h).wf(),
        handed_out(*old(h), ptr),
    ensures
        final(h).wf(),
        final(h)@ == old(h)@.give(block_of(*old(h), ptr)),
        final(h).memory@.len() == old(h).memory@.len(),
        forall|w: int|
            0 <= w < old(h).memory@.len() && !(word(ptr - HEADER_SIZE) <= w < word(ptr - HEADER_SIZE) + 2)
                ==> #[trigger] final(h).memory@[w] == old(h).memory@[w],
{
    let raw: u64 = ptr - HEADER_SIZE;
    assert(h.memory.len() == h.memory@.len());
    let size: u64 = h.memory[((raw - HEAP_BASE) / 8) as usize];
    h.deallocate(raw, size + HEADER_SIZE);
}

/// How many words `n` bytes reach into.
pub open spec fn words_of(n: int) -> int {
    (n + 7) / 8
}

/// Hands out `nmemb` items of `size` bytes each, all zero.
pub fn calloc(h: &mut Heap, nmemb: u64, size: u64) -> (r: Option<u64>)
    requires
        old(h).wf(),
    ensures
        final(h).wf(),
        ({
            let total = nmemb * size;
            if total > u64::MAX || !request_ok(total as u64) {
                r is None && *final(h) == *old(h)
            } else {
                match old(h)@.take(total + HEADER_SIZE) {
                    (_, None) => r is None && final(h)@ == old(h)@,
                    (h1, Some(a)) => {
                        &&& r matches Some(p) && p == a + HEADER_SIZE
                        &&& final(h)@ == h1
                        &&& handed_out(*final(h), r->0)
                        &&& size_at(*final(h), r->0) == total
                        &&& forall|w: int|
                            word(r->0 as int) <= w < word(r->0 as int) + words_of(total) ==> #[trigger] final(
                                h).memory@[w] == 0
                    },
                }
            }
        }),
        kept(old(h).memory@, final(h).memory@, old(h)@),
{
    let total: u64 = match nmemb.checked_mul(size) {
        Some(t) => t,
        None => {
            return None;
        },
    };
    let ghost before = h@;
    match malloc(h, total) {
        None => None,
        Some(p) => {
            let ghost mid = h.memory@;
            zero_words(h, p, total);
            proof {
                assert(word(p - HEADER_SIZE) + 2 == word(p as int));
                assert forall|w: int| 0 <= w < word(before.bump) && outside(before.free, w) implies #[trigger] h.memory@[w]
                    == old(h).memory@[w] by {
                    lemma_taken_place(before, total + HEADER_SIZE, w);
                    assert(mid[w] == old(h).memory@[w]);
                }
            }
            Some(p)
        },
    }
}

fn zero_words(h: &mut Heap, p: u64, total: u64)
    requires
        old(h).wf(),
        handed_out(*old(h), p),
        size_at(*old(h), p) == total,
    ensures
        final(h).wf(),
        final(h)@ == old(h)@,
        handed_out(*final(h), p),
        size_at(*final(h), p) == total,
        forall|w: int|
            word(p as int) <= w < word(p as int) + words_of(total as int) ==> #[trigger] final(h).memory@[w] == 0,
        final(h).memory@.len() == old(h).memory@.len(),
        forall|w: int|
            0 <= w < old(h).memory@.len() && !(word(p as int) <= w < word(p as int) + words_of(total as int))
                ==> #[trigger] final(h).memory@[w] == old(h).memory@[w],
{
    let ghost mem = h.memory@;
    let ghost b = block_of(*h, p);
    assert(h.memory.len() == mem.len());
    let start: usize = ((p - HEAP_BASE) / 8) as usize;
    let n: usize = ((total + 7) / 8) as usize;
    proof {
        assert(word(p - HEADER_SIZE) + 2 == word(p as int));
        assert(2 + words_of(total as int) <= b.size / 8);
    }
    for i in 0..n
        invariant
            start == word(p as int),
            start + n <= mem.len() <= usize::MAX,
            h.memory@.len() == mem.len(),
            h.head == old(h).head,
            h.bump == old(h).bump,
            h.limit == old(h).limit,
            h.list == old(h).list,
            forall|w: int|
                0 <= w < mem.len() ==> #[trigger] h.memory@[w] == if start <= w < start + i {
                    0
                } else {
                    mem[w]
                },
    {
        h.memory[start + i] = 0;
    }
    proof {
        lemma_write_elsewhere(mem, h.memory@, h@, b);
    }
}

/// What is in use keeps its contents, but for the two words at `at`, in front
/// of what is given back.
pub open spec fn kept_but(memory: Seq<u64>, after: Seq<u64>, h: HeapV, at: int) -> bool {
    after.len() == memory.len() && forall|w: int|
        0 <= w < word(h.bump) && outside(h.free, w) && !(at <= w < at + 2) ==> #[trigger] after[w] == memory[w]
}

/// Gives memory another size: what fits of the old contents is kept, and so
/// is all other memory that is in use.
pub fn realloc(h: &mut Heap, ptr: Option<u64>, new_size: u64) -> (r: Option<u64>)
    requires
        old(h).wf(),
        ptr matches Some(p) ==> handed_out(*old(h), p),
    ensures
        final(h).wf(),
        match ptr {
            None => if !request_ok(new_size) {
                r is None && *final(h) == *old(h)
            } else {
                match old(h)@.take(new_size + HEADER_SIZE) {
                    (_, None) => r is None && final(h)@ == old(h)@,
                    (h1, Some(a)) => {
                        &&& r matches Some(q) && q == a + HEADER_SIZE
                        &&& final(h)@ == h1
                        &&& handed_out(*final(h), r->0)
                        &&& size_at(*final(h), r->0) == new_size
                    },
                }
            },
            Some(p) => if new_size == 0 {
                r is None && final(h)@ == old(h)@.give(block_of(*old(h), p))
            } else if !request_ok(new_size) {
                r is None && *final(h) == *old(h)
            } else {
                match old(h)@.take(new_size + HEADER_SIZE) {
                    (_, None) => r is None && final(h)@ == old(h)@,
                    (h1, Some(a)) => {
                        let old_size = size_at(*old(h), p);
                        let kept = if old_size < new_size {
                            old_size
                        } else {
                            new_size as int
                        };
                        &&& r matches Some(q) && q == a + HEADER_SIZE
                        &&& final(h)@ == h1.give(block_of(*old(h), p))
                        &&& handed_out(*final(h), r->0)
                        &&& size_at(*final(h), r->0) == new_size
                        &&& forall|i: int|
                            0 <= i < words_of(kept) ==> #[trigger] final(h).memory@[word(r->0 as int) + i] == old(
                                h).memory@[word(p as int) + i]
                    },
                }
            },
        },
        match ptr {
            None => kept(old(h).memory@, final(h).memory@, old(h)@),
            Some(p) => kept_but(old(h).memory@, final(h).memory@, old(h)@, word(p - HEADER_SIZE)),
        },
{
    match ptr {
        None => malloc(h, new_size),
        Some(p) => {
            if new_size == 0 {
                free(h, p);
                return None;
            }
            resize(h, p, new_size)
        },
    }
}

/// What is handed out was freed before, or never in use.
proof fn lemma_taken_place(h: HeapV, size: int, w: int)
    requires
        h.wf(),
        0 < size,
        h.take(size).1 is Some,
        0 <= w < word(h.bump),
        outside(h.free, w),
    ensures
        !(word(h.take(size).1->0) <= w < word(h.take(size).1->0) + rounded(size) / 8),
{
    crate::heap::lemma_first_fit(h.free, rounded(size), 0);
    if let Some(i) = crate::heap::first_fit(h.free, rounded(size), 0) {
        let b = h.free[i];
        assert(b.wf());
        assert(!(word(b.addr) <= w < word(b.addr) + b.size / 8));
    }
}

/// Memory that is in use stays in use when more is handed out, and the two do
/// not overlap.
proof fn lemma_still_handed_out(before: Heap, after: Heap, p: u64, q: u64, size: u64)
    requires
        before.wf(),
        after.wf(),
        handed_out(before, p),
        request_ok(size),
        before@.take(size + HEADER_SIZE).1 == Some(q - HEADER_SIZE),
        after@ == before@.take(size + HEADER_SIZE).0,
        size_at(after, q) == size,
        kept(before.memory@, after.memory@, before@),
    ensures
        handed_out(after, p),
        size_at(after, p) == size_at(before, p),
        block_of(after, p) == block_of(before, p),
        block_of(after, p).apart(block_of(after, q)),
        forall|w: int|
            word(p - HEADER_SIZE) <= w < word(p - HEADER_SIZE) + block_of(before, p).size / 8
                ==> #[trigger] after.memory@[w] == before.memory@[w],
{
    let ours = block_of(before, p);
    let live = Seq::<Block>::empty().push(ours);
    assert(live[0] == ours);
    assert(in_use(before@, live)) by {
        assert forall|i: int, j: int| 0 <= i < live.len() && 0 <= j < before@.free.len() implies (
        #[trigger] live[i]).apart(#[trigger] before@.free[j]) by {}
    }
    law_allocation_is_fresh(before@, live, size + HEADER_SIZE);
    let b = Block { addr: q - HEADER_SIZE, size: rounded(size + HEADER_SIZE) };
    let more = live.push(b);
    assert(more[0] == ours && more[1] == b);
    assert(more[0].apart(more[1]));
    assert forall|w: int|
        word(p - HEADER_SIZE) <= w < word(p - HEADER_SIZE) + ours.size / 8 implies #[trigger] after.memory@[w]
        == before.memory@[w] by {
        assert(outside(before@.free, w)) by {
            assert forall|i: int| 0 <= i < before@.free.len() implies !(word((#[trigger] before@.free[i]).addr) <= w
                < word(before@.free[i].addr) + before@.free[i].size / 8) by {
                assert(ours.apart(before@.free[i]));
                assert(before@.free[i].wf());
            }
        }
    }
    assert(after.memory@[word(p - HEADER_SIZE)] == before.memory@[word(p - HEADER_SIZE)]);
    assert forall|j: int| 0 <= j < after@.free.len() implies ours.apart(#[trigger] after@.free[j]) by {
        assert(more[0].apart(after@.free[j]));
    }
}

/// Copies `n` words of memory that is in use to other memory that is in use.
fn copy_words(h: &mut Heap, p: u64, q: u64, n: u64)
    requires
        old(h).wf(),
        handed_out(*old(h), p),
        handed_out(*old(h), q),
        block_of(*old(h), p).apart(block_of(*old(h), q)),
        8 * n < size_at(*old(h), p) + 8,
        8 * n < size_at(*old(h), q) + 8,
    ensures
        final(h).wf(),
        final(h)@ == old(h)@,
        final(h).memory@.len() == old(h).memory@.len(),
        forall|w: int|
            0 <= w < old(h).memory@.len() ==> #[trigger] final(h).memory@[w] == if word(q as int) <= w < word(q as int)
                + n {
                old(h).memory@[word(p as int) + (w - word(q as int))]
            } else {
                old(h).memory@[w]
            },
{
    let ghost mem = h.memory@;
    let ghost a = block_of(*h, p);
    let ghost b = block_of(*h, q);
    proof {
        assert(word(p - HEADER_SIZE) + 2 == word(p as int));
        assert(word(q - HEADER_SIZE) + 2 == word(q as int));
        assert(2 + n <= a.size / 8);
        assert(2 + n <= b.size / 8);
        assert(word(a.addr) + a.size / 8 <= word(b.addr) || word(b.addr) + b.size / 8 <= word(a.addr));
        assert(word(a.addr) + a.size / 8 <= mem.len());
        assert(word(b.addr) + b.size / 8 <= mem.len());
    }
    assert(h.memory.len() == mem.len());
    let from: usize = ((p - HEAP_BASE) / 8) as usize;
    let to: usize = ((q - HEAP_BASE) / 8) as usize;
    for i in 0..n
        invariant
            from == word(p as int),
            to == word(q as int),
            to + n <= mem.len() <= usize::MAX,
            from + n <= mem.len(),
            from + n <= to || to + n <= from,
            h.memory@.len() == mem.len(),
            h.head == old(h).head,
            h.bump == old(h).bump,
            h.limit == old(h).limit,
            h.list == old(h).list,
            forall|w: int|
                0 <= w < mem.len() ==> #[trigger] h.memory@[w] == if to <= w < to + i {
                    mem[from + (w - to)]
                } else {
                    mem[w]
                },
    {
        h.memory[to + i as usize] = h.memory[from + i as usize];
    }
    proof {
        lemma_write_elsewhere(mem, h.memory@, h@, b);
    }
}

#[verifier::spinoff_prover]
#[verifier::rlimit(80)]
fn resize(h: &mut Heap, p: u64, new_size: u64) -> (r: Option<u64>)
    requires
        old(h).wf(),
        handed_out(*old(h), p),
        new_size > 0,
    ensures
        final(h).wf(),
        if !request_ok(new_size) {
            r is None && *final(h) == *old(h)
        } else {
            match old(h)@.take(new_size + HEADER_SIZE) {
                (_, None) => r is None && final(h)@ == old(h)@,
                (h1, Some(a)) => {
                    let old_size = size_at(*old(h), p);
                    let kept = if old_size < new_size {
                        old_size
                    } else {
                        new_size as int
                    };
                    &&& r matches Some(q) && q == a + HEADER_SIZE
                    &&& final(h)@ == h1.give(block_of(*old(h), p))
                    &&& handed_out(*final(h), r->0)
                    &&& size_at(*final(h), r->0) == new_size
                    &&& forall|i: int|
                        0 <= i < words_of(kept) ==> #[trigger] final(h).memory@[word(r->0 as int) + i] == old(
                            h).memory@[word(p as int) + i]
                },
            }
        },
        kept_but(old(h).memory@, final(h).memory@, old(h)@, word(p - HEADER_SIZE)),
{
    let ghost before = *h;
    assert(h.memory.len() == h.memory@.len());
    let old_size: u64 = h.memory[((p - HEADER_SIZE - HEAP_BASE) / 8) as usize];
    let q: u64 = match malloc(h, new_size) {
        None => {
            return None;
        },
        Some(q) => q,
    };
    proof {
        lemma_still_handed_out(before, *h, p, q, new_size);
        assert(word(p - HEADER_SIZE) + 2 == word(p as int));
        assert(word(q - HEADER_SIZE) + 2 == word(q as int));
    }
    let kept_bytes: u64 = if old_size < new_size {
        old_size
    } else {
        new_size
    };
    let n: u64 = (kept_bytes + 7) / 8;
    let ghost mid = *h;
    copy_words(h, p, q, n);
    proof {
        assert(h.memory@[word(p - HEADER_SIZE)] == mid.memory@[word(p - HEADER_SIZE)]);
        assert(h.memory@[word(q - HEADER_SIZE)] == mid.memory@[word(q - HEADER_SIZE)]);
        assert(block_of(*h, p) == block_of(mid, p));
        assert(handed_out(*h, p));
    }
    let ghost full = *h;
    free(h, p);
    proof {
        assert forall|i: int| 0 <= i < words_of(kept_bytes as int) implies #[trigger] h.memory@[word(q as int) + i]
            == before.memory@[word(p as int) + i] by {
            assert(full.memory@[word(q as int) + i] == mid.memory@[word(p as int) + i]);
            assert(mid.memory@[word(p as int) + i] == before.memory@[word(p as int) + i]);
        }
        assert forall|w: int|
            0 <= w < word(before@.bump) && outside(before@.free, w) && !(word(p - HEADER_SIZE) <= w < word(
                p - HEADER_SIZE,
            ) + 2) implies #[trigger] h.memory@[w] == before.memory@[w] by {
            lemma_taken_place(before@, new_size + HEADER_SIZE, w);
            assert(full.memory@[w] == mid.memory@[w]);
        }
        let b = block_of(mid, q);
        assert(block_of(*h, q) == b);
        assert forall|i: int| 0 <= i < h@.free.len() implies b.apart(#[trigger] h@.free[i]) by {
            if i > 0 {
                assert(h@.free[i] == mid@.free[i - 1]);
            }
        }
    }
    Some(q)
}

// ---- Characters ----

/// A number as the byte that C takes it for.
pub open spec fn low_byte(c: i32) -> int {
    c as int % 256
}

fn byte_of(c: i32) -> (r: u8)
    ensures
        r == low_byte(c),
{
    if c >= 0 {
        (c % 256) as u8
    } else {
        let k: i32 = -(c + 1);
        (255 - k % 256) as u8
    }
}

pub open spec fn flag(b: bool) -> int {
    if b {
        1
    } else {
        0
    }
}

fn as_int(b: bool) -> (r: i32)
    ensures
        r == flag(b),
{
    if b {
        1
    } else {
        0
    }
}

pub open spec fn is_letter(b: int) -> bool {
    0x41 <= b <= 0x5A || 0x61 <= b <= 0x7A
}

pub fn isalpha(c: i32) -> (r: i32)
    ensures
        r == flag(is_letter(low_byte(c))),
{
    let b: u8 = byte_of(c);
    as_int((0x41 <= b && b <= 0x5A) || (0x61 <= b && b <= 0x7A))
}

pub fn isdigit(c: i32) -> (r: i32)
    ensures
        r == flag(0x30 <= c <= 0x39),
{
    as_int(0x30 <= c && c <= 0x39)
}

pub fn isalnum(c: i32) -> (r: i32)
    ensures
        r == flag(is_letter(low_byte(c)) || 0x30 <= c <= 0x39),
{
    as_int(isalpha(c) != 0 || isdigit(c) != 0)
}

pub fn isspace(c: i32) -> (r: i32)
    ensures
        r == flag(low_byte(c) == 0x20 || 0x09 <= low_byte(c) <= 0x0D),
{
    let b: u8 = byte_of(c);
    as_int(b == 0x20 || (0x09 <= b && b <= 0x0D))
}

pub fn isupper(c: i32) -> (r: i32)
    ensures
        r == flag(0x41 <= c <= 0x5A),
{
    as_int(0x41 <= c && c <= 0x5A)
}

pub fn islower(c: i32) -> (r: i32)
    ensures
        r == flag(0x61 <= c <= 0x7A),
{
    as_int(0x61 <= c && c <= 0x7A)
}

pub fn isxdigit(c: i32) -> (r: i32)
    ensures
        r == flag(0x30 <= c <= 0x39 || 0x61 <= c <= 0x66 || 0x41 <= c <= 0x46),
{
    as_int(isdigit(c) != 0 || (0x61 <= c && c <= 0x66) || (0x41 <= c && c <= 0x46))
}

/// What is neither a letter nor a digit nor a space, and can be printed.
pub fn ispunct(c: i32) -> (r: i32)
    ensures
        r == flag(
            0x21 <= low_byte(c) <= 0x2F || 0x3A <= low_byte(c) <= 0x40 || 0x5B <= low_byte(c) <= 0x60 || 0x7B
                <= low_byte(c) <= 0x7E,
        ),
{
    let b: u8 = byte_of(c);
    as_int(
        (0x21 <= b && b <= 0x2F) || (0x3A <= b && b <= 0x40) || (0x5B <= b && b <= 0x60) || (0x7B <= b && b
            <= 0x7E),
    )
}

pub fn iscntrl(c: i32) -> (r: i32)
    ensures
        r == flag(low_byte(c) < 0x20 || low_byte(c) == 0x7F),
{
    let b: u8 = byte_of(c);
    as_int(b < 0x20 || b == 0x7F)
}

pub fn isprint(c: i32) -> (r: i32)
    ensures
        r == flag(0x20 <= c < 0x7F),
{
    as_int(0x20 <= c && c < 0x7F)
}

pub fn toupper(c: i32) -> (r: i32)
    ensures
        r == if 0x61 <= c <= 0x7A {
            c - 0x20
        } else {
            c as int
        },
{
    if islower(c) != 0 {
        c - 0x20
    } else {
        c
    }
}

pub fn tolower(c: i32) -> (r: i32)
    ensures
        r == if 0x41 <= c <= 0x5A {
            c + 0x20
        } else {
            c as int
        },
{
    if isupper(c) != 0 {
        c + 0x20
    } else {
        c
    }
}

// ---- Numbers ----

/// The smallest number has no opposite and stays as it is.
pub fn abs(n: i32) -> (r: i32)
    ensures
        r == if n < 0 && n != i32::MIN {
            -n
        } else {
            n as int
        },
{
    if n < 0 && n != i32::MIN {
        -n
    } else {
        n
    }
}

pub fn labs(n: i64) -> (r: i64)
    ensures
        r == if n < 0 && n != i64::MIN {
            -n
        } else {
            n as int
        },
{
    if n < 0 && n != i64::MIN {
        -n
    } else {
        n
    }
}

/// How many spaces and tabs a text starts with.
pub open spec fn blanks(s: Seq<u8>) -> int
    decreases s.len(),
{
    if s.len() > 0 && (s[0] == 0x20 || s[0] == 0x09) {
        1 + blanks(s.drop_first())
    } else {
        0
    }
}

/// The number that the digits from `at` on stand for, added to ten times what
/// was there before, and where they end. It wraps around.
pub open spec fn digits_from(s: Seq<u8>, at: int, value: i64) -> (i64, int)
    decreases s.len() - at,
{
    if 0 <= at < s.len() && 0x30 <= s[at] <= 0x39 {
        digits_from(s, at + 1, value.wrapping_mul(10).wrapping_add((s[at] - 0x30) as i64))
    } else {
        (value, at)
    }
}

/// The number at the start of a text, and how much of the text it takes up:
/// blanks, a sign, and decimal digits.
pub open spec fn number_at_start(s: Seq<u8>) -> (i64, int) {
    let n = blanks(s);
    let negative = n < s.len() && s[n] == 0x2D;
    let signed = negative || (n < s.len() && s[n] == 0x2B);
    let (value, end) = digits_from(
        s,
        if signed {
            n + 1
        } else {
            n
        },
        0,
    );
    (
        if negative {
            0i64.wrapping_sub(value)
        } else {
            value
        },
        end,
    )
}

proof fn lemma_blanks(s: Seq<u8>, i: int)
    requires
        0 <= i <= s.len(),
        forall|k: int| 0 <= k < i ==> s[k] == 0x20 || s[k] == 0x09,
        i == s.len() || !(s[i] == 0x20 || s[i] == 0x09),
    ensures
        blanks(s) == i,
    decreases i,
{
    if i > 0 {
        let t = s.drop_first();
        assert forall|k: int| 0 <= k < i - 1 implies t[k] == 0x20 || t[k] == 0x09 by {
            assert(t[k] == s[k + 1]);
        }
        lemma_blanks(t, i - 1);
    }
}

/// Reads the number at the start of a text. Returns it with how much of the
/// text it took up.
pub fn strtol(s: &[u8]) -> (r: (i64, usize))
    ensures
        r.0 == number_at_start(s@).0,
        r.1 == number_at_start(s@).1,
{
    let len: usize = s.len();
    let mut i: usize = 0;
    while i < len && (s[i] == 0x20 || s[i] == 0x09)
        invariant
            len == s@.len(),
            i <= len,
            forall|k: int| 0 <= k < i ==> s@[k] == 0x20 || s@[k] == 0x09,
        decreases len - i,
    {
        i += 1;
    }
    proof {
        lemma_blanks(s@, i as int);
    }
    let mut negative: bool = false;
    if i < len && s[i] == 0x2D {
        negative = true;
        i += 1;
    } else if i < len && s[i] == 0x2B {
        i += 1;
    }
    let ghost start = i as int;
    let mut value: i64 = 0;
    while i < len && 0x30 <= s[i] && s[i] <= 0x39
        invariant
            len == s@.len(),
            start <= i <= len,
            digits_from(s@, start, 0) == digits_from(s@, i as int, value),
        decreases len - i,
    {
        value = value.wrapping_mul(10).wrapping_add((s[i] - 0x30) as i64);
        i += 1;
    }
    if negative {
        value = 0i64.wrapping_sub(value);
    }
    (value, i)
}

/// The low half of a number, as a number with a sign.
pub open spec fn low_half(v: i64) -> int {
    let w = v as int % 0x1_0000_0000;
    if w < 0x8000_0000 {
        w
    } else {
        w - 0x1_0000_0000
    }
}

pub fn atoi(s: &[u8]) -> (r: i32)
    ensures
        r == low_half(number_at_start(s@).0),
{
    let v: i64 = strtol(s).0;
    let wide: i128 = v as i128;
    let up: i128 = if wide >= 0 {
        wide
    } else {
        wide + 0x1_0000_0000_0000_0000
    };
    let low: u64 = (up as u128 % 0x1_0000_0000) as u64;
    if low < 0x8000_0000 {
        low as i32
    } else {
        (low as i64 - 0x1_0000_0000) as i32
    }
}

// ---- Sorting ----

/// Whether a function that orders things may say that `a` comes before `b`.
pub open spec fn puts_before<T, F: Fn(T, T) -> i32>(order: F, a: T, b: T) -> bool {
    exists|r: i32| #[trigger] order.ensures((a, b), r) && r < 0
}

/// Whether it may say that `b` does not come before `a`.
pub open spec fn leaves_behind<T, F: Fn(T, T) -> i32>(order: F, a: T, b: T) -> bool {
    exists|r: i32| #[trigger] order.ensures((b, a), r) && r >= 0
}

/// Whether a function says with a negative number that its first argument
/// comes before its second, where `before` is a way to come before: no two
/// things come before each other, and whatever does not come before something
/// does not come before what that does not come before.
pub open spec fn decides<T, F: Fn(T, T) -> i32>(order: F, before: spec_fn(T, T) -> bool) -> bool {
    &&& forall|a: T, b: T, r: i32| #[trigger] order.ensures((a, b), r) ==> (r < 0) == before(a, b)
    &&& forall|a: T, b: T| #[trigger] before(a, b) ==> !before(b, a)
    &&& forall|a: T, b: T, c: T|
        #![trigger before(b, a), before(c, b)]
        !before(b, a) && !before(c, b) ==> !before(c, a)
}

/// Whether nothing comes before anything that stands ahead of it.
pub open spec fn sorted<T>(before: spec_fn(T, T) -> bool, s: Seq<T>) -> bool {
    forall|i: int, j: int| 0 <= i < j < s.len() ==> !#[trigger] before(s[j], s[i])
}

/// Whether `after` is `before` with its items rearranged, item `i` being the
/// one that was at `p[i]`.
pub open spec fn rearranged<T>(before: Seq<T>, after: Seq<T>, p: Seq<int>) -> bool {
    &&& after.len() == before.len()
    &&& p.len() == before.len()
    &&& p.no_duplicates()
    &&& forall|i: int| 0 <= i < p.len() ==> 0 <= #[trigger] p[i] < before.len() && after[i] == before[p[i]]
}

/// Whether among the first `n` items only such have changed places as the
/// order puts the other way round.
pub open spec fn in_order_kept<T, F: Fn(T, T) -> i32>(order: F, s: Seq<T>, p: Seq<int>, n: int) -> bool {
    forall|i: int, j: int|
        0 <= i < j < n && #[trigger] p[i] > #[trigger] p[j] ==> puts_before(order, s[i], s[j])
}

/// Whether two neighbours stand as the order has them.
spec fn neighbours<T, F: Fn(T, T) -> i32>(order: F, a: T, b: T) -> bool {
    puts_before(order, a, b) || leaves_behind(order, a, b)
}

/// Whether every two neighbours among the first `n` items do.
spec fn lined_up<T, F: Fn(T, T) -> i32>(order: F, s: Seq<T>, n: int) -> bool {
    forall|k: int| 0 < k < n ==> neighbours(order, s[k - 1], #[trigger] s[k])
}

proof fn lemma_lined_up<T, F: Fn(T, T) -> i32>(
    order: F,
    before: spec_fn(T, T) -> bool,
    s: Seq<T>,
    i: int,
    j: int,
)
    requires
        decides(order, before),
        lined_up(order, s, s.len() as int),
        0 <= i < j < s.len(),
    ensures
        !before(s[j], s[i]),
    decreases j - i,
{
    assert(neighbours(order, s[j - 1], s[j]));
    assert(!before(s[j], s[j - 1])) by {
        if puts_before(order, s[j - 1], s[j]) {
            assert(before(s[j - 1], s[j]));
        }
    }
    if i < j - 1 {
        lemma_lined_up(order, before, s, i, j - 1);
    }
}

/// Sorts by insertion. `order` says with a negative number that its first
/// argument comes before its second. Items of which neither comes first keep
/// their order.
pub fn qsort<T: Copy, F: Fn(T, T) -> i32>(items: &mut Vec<T>, order: F)
    requires
        forall|a: T, b: T| #[trigger] order.requires((a, b)),
    ensures
        final(items)@.to_multiset() == old(items)@.to_multiset(),
        forall|before: spec_fn(T, T) -> bool| #[trigger] decides(order, before) ==> sorted(before, final(items)@),
        exists|p: Seq<int>|
            #[trigger] rearranged(old(items)@, final(items)@, p) && in_order_kept(
                order,
                final(items)@,
                p,
                final(items)@.len() as int,
            ),
{
    let n: usize = items.len();
    let ghost origin = items@;
    let ghost mut p: Seq<int> = Seq::new(n as nat, |k: int| k);
    let mut i: usize = 1;
    while i < n
        invariant
            n == items@.len(),
            1 <= i,
            i <= n || n == 0,
            forall|a: T, b: T| #[trigger] order.requires((a, b)),
            origin == old(items)@,
            items@.to_multiset() == old(items)@.to_multiset(),
            lined_up(order, items@, i as int),
            rearranged(origin, items@, p),
            in_order_kept(order, items@, p, i as int),
            forall|k: int| 0 <= k < i && k < n ==> #[trigger] p[k] < i,
            forall|k: int| i <= k < n ==> #[trigger] p[k] == k,
        decreases n - i,
    {
        let Ghost(q) = insert_item(items, &order, i, Ghost(origin), Ghost(p));
        proof {
            p = q;
        }
        i += 1;
    }
    proof {
        let s = items@;
        assert(rearranged(old(items)@, s, p) && in_order_kept(order, s, p, n as int));
        assert forall|before: spec_fn(T, T) -> bool| #[trigger] decides(order, before) implies sorted(before, s) by {
            assert forall|a: int, b: int| 0 <= a < b < s.len() implies !#[trigger] before(s[b], s[a]) by {
                lemma_lined_up(order, before, s, a, b);
            }
        }
    }
}

/// Brings the item at `i` to its place among the sorted ones before it.
#[verifier::spinoff_prover]
#[verifier::rlimit(40)]
fn insert_item<T: Copy, F: Fn(T, T) -> i32>(
    items: &mut Vec<T>,
    order: &F,
    i: usize,
    Ghost(origin): Ghost<Seq<T>>,
    Ghost(p): Ghost<Seq<int>>,
) -> (r: Ghost<Seq<int>>)
    requires
        i < old(items)@.len(),
        forall|a: T, b: T| #[trigger] (*order).requires((a, b)),
        lined_up(*order, old(items)@, i as int),
        rearranged(origin, old(items)@, p),
        in_order_kept(*order, old(items)@, p, i as int),
        forall|k: int| 0 <= k < i ==> #[trigger] p[k] < i,
        forall|k: int| i <= k < p.len() ==> #[trigger] p[k] == k,
    ensures
        final(items)@.len() == old(items)@.len(),
        final(items)@.to_multiset() == old(items)@.to_multiset(),
        lined_up(*order, final(items)@, i + 1),
        rearranged(origin, final(items)@, r@),
        in_order_kept(*order, final(items)@, r@, i + 1),
        forall|k: int| 0 <= k <= i ==> #[trigger] r@[k] <= i,
        forall|k: int| i < k < r@.len() ==> #[trigger] r@[k] == k,
{
    let n: usize = items.len();
    let mut j: usize = i;
    let ghost mut q: Seq<int> = p;
    while j > 0
        invariant
            n == items@.len(),
            j <= i < n,
            n == old(items)@.len(),
            forall|a: T, b: T| #[trigger] (*order).requires((a, b)),
            items@.to_multiset() == old(items)@.to_multiset(),
            forall|k: int| 0 < k <= i && k != j && k != j + 1 ==> neighbours(*order, items@[k - 1], #[trigger] items@[k]),
            0 < j < i ==> neighbours(*order, items@[j - 1], items@[j + 1]),
            rearranged(origin, items@, q),
            q[j as int] == i,
            forall|k: int| 0 <= k <= i && k != j ==> #[trigger] q[k] < i,
            forall|k: int| i < k < n ==> #[trigger] q[k] == k,
            forall|b: int| j < b <= i ==> puts_before(*order, items@[j as int], #[trigger] items@[b]),
            forall|a: int, b: int|
                0 <= a < b <= i && a != j && b != j && #[trigger] q[a] > #[trigger] q[b] ==> puts_before(
                    *order,
                    items@[a],
                    items@[b],
                ),
        decreases j,
    {
        let here: T = items[j];
        let ahead: T = items[j - 1];
        let r: i32 = order(here, ahead);
        let ghost before = items@;
        if r >= 0 {
            assert(leaves_behind(*order, ahead, here));
            return Ghost(q);
        }
        items[j] = ahead;
        items[j - 1] = here;
        proof {
            let after = items@;
            let old_q = q;
            q = old_q.update(j as int, old_q[j - 1]).update(j - 1, old_q[j as int]);
            assert(puts_before(*order, here, ahead));
            lemma_swap(before, j - 1, j as int);
            assert(after =~= before.update(j as int, before[j - 1]).update(j - 1, before[j as int]));
            assert forall|k: int| 0 < k <= i && k != j - 1 && k != j implies neighbours(
                *order,
                after[k - 1],
                #[trigger] after[k],
            ) by {
                if k == j + 1 {
                    assert(neighbours(*order, before[j - 1], before[j + 1]));
                } else {
                    assert(neighbours(*order, before[k - 1], before[k]));
                }
            }
            if j >= 2 {
                assert(neighbours(*order, before[j - 2], before[j - 1]));
            }
            assert(rearranged(origin, after, q));
            assert forall|b: int| j - 1 < b <= i implies puts_before(*order, after[j - 1], #[trigger] after[b]) by {
                if b > j {
                    assert(after[b] == before[b]);
                }
            }
            assert forall|a: int, b: int|
                0 <= a < b <= i && a != j - 1 && b != j - 1 && #[trigger] q[a] > #[trigger] q[b] implies puts_before(
                *order,
                after[a],
                after[b],
            ) by {
                let a0 = if a == j {
                    j - 1
                } else {
                    a
                };
                let b0 = if b == j {
                    j - 1
                } else {
                    b
                };
                assert(old_q[a0] > old_q[b0]);
                assert(after[a] == before[a0] && after[b] == before[b0]);
            }
        }
        j -= 1;
    }
    Ghost(q)
}

/// Swapping two items keeps them all.
proof fn lemma_swap<T>(s: Seq<T>, i: int, j: int)
    requires
        0 <= i < j < s.len(),
    ensures
        s.update(j, s[i]).update(i, s[j]).to_multiset() == s.to_multiset(),
{
    broadcast use vstd::seq_lib::group_to_multiset_ensures;

    let a = s.update(j, s[i]);
    let b = a.update(i, s[j]);
    vstd::seq_lib::to_multiset_update(s, j, s[i]);
    vstd::seq_lib::to_multiset_update(a, i, s[j]);
    assert(b.to_multiset() =~= s.to_multiset());
}

// ---- Random numbers ----

pub struct Rand {
    pub state: u32,
}

/// The state after the next number.
pub open spec fn next_state(state: u32) -> u32 {
    state.wrapping_mul(1103515245).wrapping_add(12345)
}

impl Rand {
    pub fn new() -> (r: Rand)
        ensures
            r.state == 12345,
    {
        Rand { state: 12345 }
    }

    /// The next number, from 0 to 32767.
    pub fn rand(&mut self) -> (r: i32)
        ensures
            final(self).state == next_state(old(self).state),
            r == final(self).state / 0x1_0000 % 0x8000,
    {
        self.state = self.state.wrapping_mul(1103515245).wrapping_add(12345);
        ((self.state / 0x1_0000) % 0x8000) as i32
    }

    pub fn srand(&mut self, seed: u32)
        ensures
            final(self).state == seed,
    {
        self.state = seed;
    }
}

// ---- Numbers as they are printed ----

proof fn lemma_gap(gap: Seq<u8>, t: Seq<u8>)
    requires
        forall|i: int| 0 <= i < gap.len() ==> #[trigger] gap[i] == 0x20 || gap[i] == 0x09,
        t.len() > 0 && t[0] != 0x20 && t[0] != 0x09,
    ensures
        blanks(gap + t) == gap.len(),
    decreases gap.len(),
{
    if gap.len() > 0 {
        lemma_gap(gap.drop_first(), t);
        assert((gap + t).drop_first() =~= gap.drop_first() + t);
    } else {
        assert(gap + t =~= t);
    }
}

/// Whether digits stand in `s` from `at` on and no more follow them.
spec fn digits_stand(s: Seq<u8>, at: int, digits: Seq<u8>) -> bool {
    &&& 0 <= at
    &&& at + digits.len() <= s.len()
    &&& forall|i: int| 0 <= i < digits.len() ==> 0x30 <= #[trigger] digits[i] <= 0x39 && s[at + i] == digits[i]
    &&& at + digits.len() < s.len() ==> !(0x30 <= s[at + digits.len()] <= 0x39)
}

proof fn lemma_digits_read(s: Seq<u8>, at: int, digits: Seq<u8>, n: nat, k: int)
    requires
        digits_stand(s, at, digits),
        digits_value(digits) == Some(n),
        n <= i64::MAX,
        0 <= k <= digits.len(),
    ensures
        digits_value(digits.take(k)) matches Some(m) && m <= n && digits_from(s, at, 0) == digits_from(
            s,
            at + k,
            m as i64,
        ),
    decreases k,
{
    lemma_digits_grow(digits, k);
    if k == 0 {
        assert(digits.take(0) =~= Seq::empty());
        assert(digits_value(Seq::<u8>::empty()) == Some(0nat));
    } else {
        lemma_digits_read(s, at, digits, n, k - 1);
        assert(digits.take(k).drop_last() =~= digits.take(k - 1));
        let m = digits_value(digits.take(k - 1))->0;
        let d = (digits[k - 1] - 0x30) as i64;
        assert(s[at + (k - 1)] == digits[k - 1]);
        assert(digits_value(digits.take(k)) == Some((m * 10 + d) as nat));
        assert((m as i64).wrapping_mul(10) == m * 10);
        assert((m as i64).wrapping_mul(10).wrapping_add(d) == m * 10 + d);
    }
}

/// A number that is printed in decimal is read back, with blanks before it,
/// with a sign or without, and with anything but a digit behind it; what is
/// read ends with its last digit.
#[verifier::spinoff_prover]
#[verifier::rlimit(40)]
pub proof fn law_printed_number(gap: Seq<u8>, sign: Seq<u8>, n: nat, rest: Seq<u8>)
    requires
        forall|i: int| 0 <= i < gap.len() ==> #[trigger] gap[i] == 0x20 || gap[i] == 0x09,
        sign == Seq::<u8>::empty() || sign == seq![0x2Du8] || sign == seq![0x2Bu8],
        n <= i64::MAX,
        rest.len() > 0 ==> !(0x30 <= rest[0] <= 0x39),
    ensures
        number_at_start(gap + (sign + decimal(n) + rest)).0 == if sign == seq![0x2Du8] {
            -n
        } else {
            n as int
        },
        number_at_start(gap + (sign + decimal(n) + rest)).1 == gap.len() + sign.len() + decimal(n).len(),
{
    let digits = decimal(n);
    let t = sign + digits + rest;
    let s = gap + t;
    lemma_decimal_value(n);
    lemma_only_digits(n);
    if sign.len() > 0 {
        assert(t[0] == sign[0]);
    } else {
        assert(t[0] == digits[0]);
    }
    lemma_gap(gap, t);
    let at = gap.len() + sign.len() as int;
    assert forall|i: int| 0 <= i < digits.len() implies 0x30 <= #[trigger] digits[i] <= 0x39 && s[at + i]
        == digits[i] by {}
    if at + digits.len() < s.len() {
        assert(s[at + digits.len()] == rest[0]);
    }
    assert(digits_stand(s, at, digits));
    lemma_digits_read(s, at, digits, n, digits.len() as int);
    assert(digits.take(digits.len() as int) =~= digits);
    assert(s[gap.len() as int] == t[0]);
    assert(0i64.wrapping_sub(n as i64) == -n);
}

proof fn lemma_only_digits(n: nat)
    ensures
        forall|i: int| 0 <= i < decimal(n).len() ==> 0x30 <= #[trigger] decimal(n)[i] <= 0x39,
    decreases n,
{
    if n >= 10 {
        lemma_only_digits(n / 10);
        let t = decimal(n / 10);
        assert(decimal(n) == t.push((0x30 + n % 10) as u8));
        assert forall|i: int| 0 <= i < decimal(n).len() implies 0x30 <= #[trigger] decimal(n)[i] <= 0x39 by {
            if i < t.len() {
                assert(decimal(n)[i] == t[i]);
            }
        }
    }
}

} // verus!
