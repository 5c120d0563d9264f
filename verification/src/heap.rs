//! The kernel heap: memory is handed out from a list of freed blocks, first
//! fit, and from the unused rest otherwise. A freed block holds its size and
//! the address of the next one in its own first words.
use crate::paging::{Mem, Memory, ADDR_MASK, PAGE_WRITABLE};
use crate::space::{place_page, placed, space_ok};
use vstd::prelude::*;

verus! {

pub const HEAP_BASE: u64 = 0xFFFF_9000_0000_0000;

pub const INITIAL_HEAP_SIZE: u64 = 0x600_0000;

pub const MIN_BLOCK_SIZE: u64 = 16;

pub const MIN_ALIGN: u64 = 16;

/// A run of the heap.
pub ghost struct Block {
    pub addr: int,
    pub size: int,
}

impl Block {
    pub open spec fn wf(self) -> bool {
        &&& self.addr % 16 == 0
        &&& self.size % 16 == 0
        &&& self.size >= 16
        &&& HEAP_BASE <= self.addr
    }

    pub open spec fn apart(self, other: Block) -> bool {
        self.addr + self.size <= other.addr || other.addr + other.size <= self.addr
    }
}

/// The freed blocks, the one that is looked at first in front, where the
/// unused rest starts, and where it ends.
pub ghost struct HeapV {
    pub free: Seq<Block>,
    pub bump: int,
    pub limit: int,
}

/// The first block from `from` on that is large enough.
pub open spec fn first_fit(free: Seq<Block>, size: int, from: int) -> Option<int>
    decreases free.len() - from,
{
    if from >= free.len() {
        None
    } else if free[from].size >= size {
        Some(from)
    } else {
        first_fit(free, size, from + 1)
    }
}

/// How many bytes a request takes: at least sixteen, and a multiple of that.
pub open spec fn rounded(size: int) -> int {
    if size <= 16 {
        16
    } else {
        (size + 15) / 16 * 16
    }
}

impl HeapV {
    pub open spec fn wf(self) -> bool {
        &&& HEAP_BASE <= self.bump <= self.limit <= u64::MAX
        &&& self.bump % 16 == 0
        &&& forall|i: int|
            0 <= i < self.free.len() ==> (#[trigger] self.free[i]).wf() && self.free[i].addr + self.free[i].size
                <= self.bump
        &&& forall|i: int, j: int|
            0 <= i < j < self.free.len() ==> (#[trigger] self.free[i]).apart(#[trigger] self.free[j])
    }

    /// The heap with a block taken off the list, and what is left of it put
    /// back.
    pub open spec fn carved(self, i: int, size: int) -> HeapV {
        let b = self.free[i];
        let rest = self.free.remove(i);
        HeapV {
            free: if b.size - size >= 16 {
                seq![Block { addr: b.addr + size, size: b.size - size }] + rest
            } else {
                rest
            },
            ..self
        }
    }

    /// What a request for `size` bytes takes and leaves.
    pub open spec fn take(self, size: int) -> (HeapV, Option<int>) {
        let n = rounded(size);
        match first_fit(self.free, n, 0) {
            Some(i) => (self.carved(i, n), Some(self.free[i].addr)),
            None => if self.bump + n <= self.limit {
                (HeapV { bump: self.bump + n, ..self }, Some(self.bump))
            } else {
                (self, None)
            },
        }
    }

    /// The heap after a block has been given back.
    pub open spec fn give(self, b: Block) -> HeapV {
        HeapV { free: seq![b] + self.free, ..self }
    }
}

/// The heap's memory, with the list of freed blocks in it: `head` is the
/// address of the first one, or 0.
pub struct Heap {
    pub memory: Vec<u64>,
    pub head: u64,
    pub bump: u64,
    pub limit: u64,
    pub list: Ghost<Seq<Block>>,
}

/// The word of memory at an address.
pub open spec fn word(a: int) -> int {
    (a - HEAP_BASE) / 8
}

/// The address of block `i`, or 0 behind the last one.
pub open spec fn link_to(free: Seq<Block>, i: int) -> int {
    if 0 <= i < free.len() {
        free[i].addr
    } else {
        0
    }
}

/// The list is laid out in memory.
pub open spec fn linked(memory: Seq<u64>, free: Seq<Block>) -> bool {
    forall|i: int|
        #![trigger free[i]]
        0 <= i < free.len() ==> memory[word(free[i].addr)] == free[i].size && memory[word(free[i].addr) + 1]
            == link_to(free, i + 1)
}

/// Whether a word of memory belongs to none of the blocks.
pub open spec fn outside(free: Seq<Block>, w: int) -> bool {
    forall|i: int|
        0 <= i < free.len() ==> !(word((#[trigger] free[i]).addr) <= w < word(free[i].addr) + free[i].size / 8)
}

/// What is in use keeps its contents: only freed blocks have changed.
pub open spec fn kept(memory: Seq<u64>, after: Seq<u64>, h: HeapV) -> bool {
    after.len() == memory.len() && forall|w: int|
        0 <= w < word(h.bump) && outside(h.free, w) ==> #[trigger] after[w] == memory[w]
}

impl Heap {
    pub open spec fn view(self) -> HeapV {
        HeapV { free: self.list@, bump: self.bump as int, limit: self.limit as int }
    }

    pub open spec fn wf(self) -> bool {
        &&& self@.wf()
        &&& self.limit - HEAP_BASE == 8 * self.memory@.len()
        &&& self.head == link_to(self.list@, 0)
        &&& linked(self.memory@, self.list@)
    }

    /// A heap with nothing handed out, over memory that was set up for it.
    pub fn new(memory: Vec<u64>) -> (r: Heap)
        requires
            memory@.len() == INITIAL_HEAP_SIZE / 8,
        ensures
            r.wf(),
            r@ == (HeapV {
                free: Seq::empty(),
                bump: HEAP_BASE as int,
                limit: HEAP_BASE + INITIAL_HEAP_SIZE,
            }),
    {
        Heap {
            memory,
            head: 0,
            bump: HEAP_BASE,
            limit: HEAP_BASE + INITIAL_HEAP_SIZE,
            list: Ghost(Seq::empty()),
        }
    }

    fn get(&self, addr: u64, k: u64) -> (r: u64)
        requires
            self.wf(),
            HEAP_BASE <= addr,
            addr % 16 == 0,
            addr + 16 <= self.bump,
            k < 2,
        ensures
            r == self.memory@[word(addr as int) + k],
    {
        assert(self.memory.len() == self.memory@.len());
        let at: u64 = (addr - HEAP_BASE) / 8 + k;
        self.memory[at as usize]
    }

    /// Puts a block in front of the list.
    fn push(&mut self, addr: u64, size: u64)
        requires
            old(self).wf(),
            (Block { addr: addr as int, size: size as int }).wf(),
            addr + size <= old(self).bump,
            forall|i: int|
                0 <= i < old(self)@.free.len() ==> (Block { addr: addr as int, size: size as int }).apart(
                    #[trigger] old(self)@.free[i],
                ),
        ensures
            final(self).wf(),
            final(self)@ == old(self)@.give(Block { addr: addr as int, size: size as int }),
            final(self).memory@.len() == old(self).memory@.len(),
            forall|w: int|
                0 <= w < old(self).memory@.len() && !(word(addr as int) <= w < word(addr as int) + 2)
                    ==> #[trigger] final(self).memory@[w] == old(self).memory@[w],
    {
        let ghost b = Block { addr: addr as int, size: size as int };
        let ghost h = self@;
        let ghost mem = self.memory@;
        assert(self.memory.len() == mem.len());
        let at: usize = ((addr - HEAP_BASE) / 8) as usize;
        self.memory[at] = size;
        self.memory[at + 1] = self.head;
        self.head = addr;
        self.list = Ghost(seq![b] + self.list@);
        proof {
            lemma_give_ok(h, b);
            lemma_give_linked(mem, self.memory@, h, b);
        }
    }

    /// Looks for the first block that is large enough: the one before it, the
    /// block, the one behind it, and its size.
    fn find_fit(&self, size: u64) -> (r: Option<(u64, u64, u64, u64)>)
        requires
            self.wf(),
        ensures
            match first_fit(self@.free, size as int, 0) {
                Some(i) => {
                    &&& 0 <= i < self@.free.len()
                    &&& r matches Some((prev, at, next, have)) && {
                        &&& prev == link_to(self@.free, i - 1)
                        &&& at == self@.free[i].addr
                        &&& next == link_to(self@.free, i + 1)
                        &&& have == self@.free[i].size
                        &&& have >= size
                    }
                },
                None => r is None,
            },
    {
        let ghost free = self.list@;
        let mut prev: u64 = 0;
        let mut current: u64 = self.head;
        let ghost mut i: int = 0;
        while current != 0
            invariant
                self.wf(),
                free == self.list@,
                0 <= i <= free.len(),
                current == link_to(free, i),
                prev == link_to(free, i - 1),
                first_fit(free, size as int, 0) == first_fit(free, size as int, i),
            decreases free.len() - i,
        {
            assert(i < free.len());
            assert(self@.free[i].wf() && self@.free[i].addr + self@.free[i].size <= self.bump);
            let have: u64 = self.get(current, 0);
            let next: u64 = self.get(current, 1);
            if have >= size {
                return Some((prev, current, next, have));
            }
            prev = current;
            current = next;
            proof {
                i = i + 1;
            }
        }
        proof {
            if i < free.len() {
                assert(self@.free[i].wf());
            }
        }
        None
    }

    /// Takes the first block that is large enough off the list and puts what
    /// is left of it back.
    #[verifier::spinoff_prover]
    #[verifier::rlimit(60)]
    fn pop_fit(&mut self, size: u64) -> (r: Option<u64>)
        requires
            old(self).wf(),
            size % 16 == 0,
            size >= 16,
        ensures
            final(self).wf(),
            match first_fit(old(self)@.free, size as int, 0) {
                Some(i) => {
                    &&& final(self)@ == old(self)@.carved(i, size as int)
                    &&& r matches Some(a) && a == old(self)@.free[i].addr
                },
                None => r is None && *final(self) == *old(self),
            },
            kept(old(self).memory@, final(self).memory@, old(self)@),
    {
        let ghost free = self@.free;
        let ghost mem = self.memory@;
        match self.find_fit(size) {
            None => None,
            Some((prev, current, next, have)) => {
                let ghost i = first_fit(free, size as int, 0)->0;
                assert(free[i].wf());
                self.unlink(prev, next, Ghost(i));
                let left: u64 = have - size;
                if left >= MIN_BLOCK_SIZE {
                    proof {
                        lemma_left_apart(old(self)@, i, size as int);
                    }
                    self.push(current + size, left);
                }
                proof {
                    assert forall|w: int| 0 <= w < word(old(self)@.bump) && outside(free, w) implies #[trigger] self.memory@[w]
                        == mem[w] by {
                        assert(!(word(free[i].addr) <= w < word(free[i].addr) + free[i].size / 8));
                        assert(word(current + size) == word(current as int) + size / 8);
                    }
                }
                Some(current)
            },
        }
    }

    /// Takes block `i` off the list: `prev` is the one before it, or 0, and
    /// `next` the one behind it.
    fn unlink(&mut self, prev: u64, next: u64, i: Ghost<int>)
        requires
            old(self).wf(),
            0 <= i@ < old(self)@.free.len(),
            prev == link_to(old(self)@.free, i@ - 1),
            next == link_to(old(self)@.free, i@ + 1),
        ensures
            final(self).wf(),
            final(self)@ == (HeapV { free: old(self)@.free.remove(i@), ..old(self)@ }),
            kept(old(self).memory@, final(self).memory@, old(self)@),
    {
        let ghost h = self@;
        let ghost free = h.free;
        let ghost mem = self.memory@;
        assert(self.memory.len() == mem.len());
        assert(free[i@].wf());
        if prev == 0 {
            proof {
                if i@ > 0 {
                    assert(free[i@ - 1].wf());
                }
            }
            self.head = next;
        } else {
            assert(i@ > 0);
            assert(free[i@ - 1].wf() && free[i@ - 1].addr + free[i@ - 1].size <= h.bump);
            let at: usize = ((prev - HEAP_BASE) / 8) as usize;
            self.memory[at + 1] = next;
            proof {
                assert forall|w: int| 0 <= w < word(h.bump) && outside(free, w) implies #[trigger] self.memory@[w]
                    == mem[w] by {
                    assert(!(word(free[i@ - 1].addr) <= w < word(free[i@ - 1].addr) + free[i@ - 1].size / 8));
                }
            }
        }
        self.list = Ghost(self.list@.remove(i@));
        proof {
            lemma_remove_ok(h, i@);
            lemma_remove_linked(mem, self.memory@, h, i@);
            let rest = free.remove(i@);
            if rest.len() > 0 && i@ == 0 {
                assert(rest[0] == free[1]);
            }
        }
    }

    /// Hands out `size` bytes, or nothing if there is no room or the alignment
    /// is more than sixteen.
    pub fn allocate(&mut self, size: u64, align: u64) -> (r: Option<u64>)
        requires
            old(self).wf(),
            size <= 0x7FFF_FFFF_FFFF_FFF0,
        ensures
            final(self).wf(),
            if align > MIN_ALIGN {
                r is None && *final(self) == *old(self)
            } else {
                &&& final(self)@ == old(self)@.take(size as int).0
                &&& match old(self)@.take(size as int).1 {
                    Some(a) => r matches Some(x) && x == a,
                    None => r is None,
                }
            },
            kept(old(self).memory@, final(self).memory@, old(self)@),
    {
        if align > MIN_ALIGN {
            return None;
        }
        let n: u64 = round(size);
        if let Some(a) = self.pop_fit(n) {
            return Some(a);
        }
        if n <= self.limit - self.bump {
            let a: u64 = self.bump;
            self.bump = self.bump + n;
            return Some(a);
        }
        None
    }

    /// Takes back what was handed out for `size` bytes at `addr`.
    pub fn deallocate(&mut self, addr: u64, size: u64)
        requires
            old(self).wf(),
            size <= 0x7FFF_FFFF_FFFF_FFF0,
            (Block { addr: addr as int, size: rounded(size as int) }).wf(),
            addr + rounded(size as int) <= old(self).bump,
            forall|i: int|
                0 <= i < old(self)@.free.len() ==> (Block { addr: addr as int, size: rounded(size as int) }).apart(
                    #[trigger] old(self)@.free[i],
                ),
        ensures
            final(self).wf(),
            final(self)@ == old(self)@.give(Block { addr: addr as int, size: rounded(size as int) }),
            final(self).memory@.len() == old(self).memory@.len(),
            forall|w: int|
                0 <= w < old(self).memory@.len() && !(word(addr as int) <= w < word(addr as int) + 2)
                    ==> #[trigger] final(self).memory@[w] == old(self).memory@[w],
    {
        let n: u64 = round(size);
        self.push(addr, n);
    }
}

/// How many bytes of the rest are unused, and how many there are in all.
pub fn stats(h: &Heap) -> (r: (u64, u64))
    requires
        h.wf(),
    ensures
        r.0 == h.limit - h.bump,
        r.1 == h.limit - HEAP_BASE,
{
    (h.limit - h.bump, h.limit - HEAP_BASE)
}

/// A block that overlaps no freed one can join them.
proof fn lemma_give_ok(h: HeapV, b: Block)
    requires
        h.wf(),
        b.wf(),
        b.addr + b.size <= h.bump,
        forall|i: int| 0 <= i < h.free.len() ==> b.apart(#[trigger] h.free[i]),
    ensures
        h.give(b).wf(),
{
    let list = h.give(b).free;
    assert forall|i: int, j: int| 0 <= i < j < list.len() implies (#[trigger] list[i]).apart(#[trigger] list[j]) by {
        assert(list[j] == h.free[j - 1]);
        if i > 0 {
            assert(list[i] == h.free[i - 1]);
            assert(h.free[i - 1].apart(h.free[j - 1]));
        }
    }
    assert forall|i: int| 0 <= i < list.len() implies (#[trigger] list[i]).wf() && list[i].addr + list[i].size
        <= h.bump by {
        if i > 0 {
            assert(list[i] == h.free[i - 1]);
        }
    }
}

proof fn lemma_give_linked(mem: Seq<u64>, after: Seq<u64>, h: HeapV, b: Block)
    requires
        h.wf(),
        b.wf(),
        b.addr + b.size <= h.bump,
        h.limit - HEAP_BASE == 8 * mem.len(),
        forall|i: int| 0 <= i < h.free.len() ==> b.apart(#[trigger] h.free[i]),
        linked(mem, h.free),
        after == mem.update(word(b.addr), b.size as u64).update(word(b.addr) + 1, link_to(h.free, 0) as u64),
        link_to(h.free, 0) <= u64::MAX,
    ensures
        linked(after, h.give(b).free),
{
    let list = h.give(b).free;
    assert forall|i: int| #![trigger list[i]] 0 <= i < list.len() implies after[word(list[i].addr)] == list[i].size
        && after[word(list[i].addr) + 1] == link_to(list, i + 1) by {
        if i > 0 {
            assert(list[i] == h.free[i - 1]);
            assert(b.apart(h.free[i - 1]));
            assert(h.free[i - 1].wf());
            assert(link_to(list, i + 1) == link_to(h.free, i));
        } else {
            assert(link_to(list, 1) == link_to(h.free, 0));
            if h.free.len() > 0 {
                assert(h.free[0].wf());
            }
        }
    }
}

/// What is left of a block overlaps none of the others.
proof fn lemma_left_apart(h: HeapV, i: int, size: int)
    requires
        h.wf(),
        0 <= i < h.free.len(),
        0 <= size,
    ensures
        forall|k: int|
            0 <= k < h.free.remove(i).len() ==> (Block {
                addr: h.free[i].addr + size,
                size: h.free[i].size - size,
            }).apart(#[trigger] h.free.remove(i)[k]),
{
    let rest = h.free.remove(i);
    let left = Block { addr: h.free[i].addr + size, size: h.free[i].size - size };
    assert forall|k: int| 0 <= k < rest.len() implies left.apart(#[trigger] rest[k]) by {
        let j = if k < i {
            k
        } else {
            k + 1
        };
        assert(rest[k] == h.free[j]);
        if j < i {
            assert(h.free[j].apart(h.free[i]));
        } else {
            assert(h.free[i].apart(h.free[j]));
        }
    }
}

/// A block can leave the freed ones.
proof fn lemma_remove_ok(h: HeapV, i: int)
    requires
        h.wf(),
        0 <= i < h.free.len(),
    ensures
        (HeapV { free: h.free.remove(i), ..h }).wf(),
{
    let rest = h.free.remove(i);
    assert forall|a: int, b: int| 0 <= a < b < rest.len() implies (#[trigger] rest[a]).apart(#[trigger] rest[b]) by {
        let c = if a < i {
            a
        } else {
            a + 1
        };
        let d = if b < i {
            b
        } else {
            b + 1
        };
        assert(rest[a] == h.free[c] && rest[b] == h.free[d]);
        assert(h.free[c].apart(h.free[d]));
    }
    assert forall|k: int| 0 <= k < rest.len() implies (#[trigger] rest[k]).wf() && rest[k].addr + rest[k].size
        <= h.bump by {
        let j = if k < i {
            k
        } else {
            k + 1
        };
        assert(rest[k] == h.free[j]);
    }
}

#[verifier::spinoff_prover]
proof fn lemma_remove_linked(mem: Seq<u64>, after: Seq<u64>, h: HeapV, i: int)
    requires
        h.wf(),
        0 <= i < h.free.len(),
        h.limit - HEAP_BASE == 8 * mem.len(),
        linked(mem, h.free),
        link_to(h.free, i + 1) <= u64::MAX,
        i == 0 ==> after == mem,
        i > 0 ==> after == mem.update(word(h.free[i - 1].addr) + 1, link_to(h.free, i + 1) as u64),
    ensures
        linked(after, h.free.remove(i)),
{
    let free = h.free;
    let rest = free.remove(i);
    assert forall|k: int| #![trigger rest[k]] 0 <= k < rest.len() implies after[word(rest[k].addr)] == rest[k].size
        && after[word(rest[k].addr) + 1] == link_to(rest, k + 1) by {
        let j = if k < i {
            k
        } else {
            k + 1
        };
        assert(rest[k] == free[j]);
        assert(free[j].wf());
        assert(link_to(rest, k + 1) == if k + 1 < i {
            link_to(free, k + 1)
        } else {
            link_to(free, k + 2)
        });
        if i > 0 {
            assert(free[i - 1].wf());
            if j < i - 1 {
                assert(free[j].apart(free[i - 1]));
            } else if j > i - 1 {
                assert(free[i - 1].apart(free[j]));
            }
            if i + 1 < free.len() {
                assert(free[i + 1].wf());
            }
        }
    }
}

fn round(size: u64) -> (r: u64)
    requires
        size <= 0x7FFF_FFFF_FFFF_FFF0,
    ensures
        r == rounded(size as int),
        r % 16 == 0,
        r >= 16,
{
    if size <= 16 {
        16
    } else {
        (size + 15) / 16 * 16
    }
}

// ---- What is handed out ----

/// The blocks that are in use are well-formed, lie below the rest, and overlap
/// neither each other nor a freed block.
pub open spec fn in_use(h: HeapV, live: Seq<Block>) -> bool {
    &&& forall|i: int|
        0 <= i < live.len() ==> (#[trigger] live[i]).wf() && live[i].addr + live[i].size <= h.bump
    &&& forall|i: int, j: int| 0 <= i < j < live.len() ==> (#[trigger] live[i]).apart(#[trigger] live[j])
    &&& forall|i: int, j: int|
        0 <= i < live.len() && 0 <= j < h.free.len() ==> (#[trigger] live[i]).apart(#[trigger] h.free[j])
}

pub proof fn lemma_first_fit(free: Seq<Block>, size: int, from: int)
    requires
        0 <= from <= free.len(),
    ensures
        first_fit(free, size, from) matches Some(i) ==> from <= i < free.len() && free[i].size >= size,
    decreases free.len() - from,
{
    if from < free.len() && free[from].size < size {
        lemma_first_fit(free, size, from + 1);
    }
}

/// What is handed out is aligned, as large as asked for, and overlaps nothing
/// that is in use.
pub proof fn law_allocation_is_fresh(h: HeapV, live: Seq<Block>, size: int)
    requires
        h.wf(),
        in_use(h, live),
        0 <= size,
        h.take(size).1 is Some,
    ensures
        ({
            let (h1, a) = h.take(size);
            let b = Block { addr: a->0, size: rounded(size) };
            &&& b.wf()
            &&& b.size >= size
            &&& h1.wf()
            &&& in_use(h1, live.push(b))
        }),
{
    let n = rounded(size);
    let (h1, a) = h.take(size);
    let b = Block { addr: a->0, size: n };
    let more = live.push(b);
    lemma_first_fit(h.free, n, 0);
    if let Some(i) = first_fit(h.free, n, 0) {
        let whole = h.free[i];
        assert(whole.wf());
        let rest = h.free.remove(i);
        let left = Block { addr: whole.addr + n, size: whole.size - n };
        assert forall|k: int| 0 <= k < rest.len() implies whole.apart(#[trigger] rest[k]) && rest[k].wf()
            && rest[k].addr + rest[k].size <= h.bump by {
            let j = if k < i {
                k
            } else {
                k + 1
            };
            assert(rest[k] == h.free[j]);
            if j < i {
                assert(h.free[j].apart(h.free[i]));
            } else {
                assert(h.free[i].apart(h.free[j]));
            }
        }
        assert forall|x: int, y: int| 0 <= x < y < rest.len() implies (#[trigger] rest[x]).apart(
            #[trigger] rest[y],
        ) by {
            let c = if x < i {
                x
            } else {
                x + 1
            };
            let d = if y < i {
                y
            } else {
                y + 1
            };
            assert(rest[x] == h.free[c] && rest[y] == h.free[d]);
            assert(h.free[c].apart(h.free[d]));
        }
        let cut = whole.size - n >= 16;
        assert forall|k: int| 0 <= k < h1.free.len() implies (#[trigger] h1.free[k]) == (if cut {
            if k == 0 {
                left
            } else {
                rest[k - 1]
            }
        } else {
            rest[k]
        }) by {}
        assert forall|x: int, y: int| 0 <= x < y < h1.free.len() implies (#[trigger] h1.free[x]).apart(
            #[trigger] h1.free[y],
        ) by {
            if cut && x == 0 {
                assert(whole.apart(rest[y - 1]));
            } else if cut {
                assert(rest[x - 1].apart(rest[y - 1]));
            } else {
                assert(rest[x].apart(rest[y]));
            }
        }
        assert forall|x: int, y: int| 0 <= x < more.len() && 0 <= y < h1.free.len() implies (
        #[trigger] more[x]).apart(#[trigger] h1.free[y]) by {
            let u = if cut && y > 0 {
                y - 1
            } else {
                y
            };
            if x < live.len() {
                assert(live[x].apart(h.free[i]));
                if !(cut && y == 0) {
                    let j = if u < i {
                        u
                    } else {
                        u + 1
                    };
                    assert(rest[u] == h.free[j]);
                    assert(live[x].apart(h.free[j]));
                }
            } else if !(cut && y == 0) {
                assert(whole.apart(rest[u]));
            }
        }
        assert forall|x: int, y: int| 0 <= x < y < more.len() implies (#[trigger] more[x]).apart(
            #[trigger] more[y],
        ) by {
            if y == live.len() {
                assert(live[x].apart(h.free[i]));
            } else {
                assert(live[x].apart(live[y]));
            }
        }
    } else {
        assert forall|x: int, y: int| 0 <= x < y < more.len() implies (#[trigger] more[x]).apart(
            #[trigger] more[y],
        ) by {
            if y < live.len() {
                assert(live[x].apart(live[y]));
            }
        }
        assert forall|x: int, y: int| 0 <= x < more.len() && 0 <= y < h1.free.len() implies (
        #[trigger] more[x]).apart(#[trigger] h1.free[y]) by {
            if x < live.len() {
                assert(live[x].apart(h.free[y]));
            }
        }
    }
}

/// Giving back something that is in use leaves everything else in use.
pub proof fn law_giving_back(h: HeapV, live: Seq<Block>, i: int)
    requires
        h.wf(),
        in_use(h, live),
        0 <= i < live.len(),
    ensures
        h.give(live[i]).wf(),
        in_use(h.give(live[i]), live.remove(i)),
{
    let b = live[i];
    let h1 = h.give(b);
    let rest = live.remove(i);
    assert forall|x: int, y: int| 0 <= x < y < h1.free.len() implies (#[trigger] h1.free[x]).apart(
        #[trigger] h1.free[y],
    ) by {
        assert(h1.free[y] == h.free[y - 1]);
        if x == 0 {
            assert(live[i].apart(h.free[y - 1]));
        } else {
            assert(h1.free[x] == h.free[x - 1]);
            assert(h.free[x - 1].apart(h.free[y - 1]));
        }
    }
    assert forall|x: int| 0 <= x < h1.free.len() implies (#[trigger] h1.free[x]).wf() && h1.free[x].addr
        + h1.free[x].size <= h1.bump by {
        if x > 0 {
            assert(h1.free[x] == h.free[x - 1]);
        }
    }
    assert forall|x: int| 0 <= x < rest.len() implies (#[trigger] rest[x]).wf() && rest[x].addr + rest[x].size
        <= h1.bump by {
        let c = if x < i {
            x
        } else {
            x + 1
        };
        assert(rest[x] == live[c]);
    }
    assert forall|x: int, y: int| 0 <= x < y < rest.len() implies (#[trigger] rest[x]).apart(#[trigger] rest[y]) by {
        let c = if x < i {
            x
        } else {
            x + 1
        };
        let d = if y < i {
            y
        } else {
            y + 1
        };
        assert(rest[x] == live[c] && rest[y] == live[d]);
        assert(live[c].apart(live[d]));
    }
    assert forall|x: int, y: int| 0 <= x < rest.len() && 0 <= y < h1.free.len() implies (#[trigger] rest[x]).apart(
        #[trigger] h1.free[y],
    ) by {
        let c = if x < i {
            x
        } else {
            x + 1
        };
        assert(rest[x] == live[c]);
        if y == 0 {
            if c < i {
                assert(live[c].apart(live[i]));
            } else {
                assert(live[i].apart(live[c]));
            }
        } else {
            assert(h1.free[y] == h.free[y - 1]);
            assert(live[c].apart(h.free[y - 1]));
        }
    }
}

/// What was just given back is handed out again to whoever asks for as much.
pub proof fn law_reuse(h: HeapV, b: Block, size: int)
    requires
        b.size == rounded(size),
    ensures
        h.give(b).take(size) == (h, Some(b.addr)),
{
    let h1 = h.give(b);
    assert(first_fit(h1.free, rounded(size), 0) == Some(0int));
    assert(h1.free.remove(0) =~= h.free);
}

// ---- Setting up ----

pub const NO_HEAP: &'static str = "heap::init: out of physical memory mapping the initial heap";

/// Memory after the first `n` pages of the heap have been mapped.
pub open spec fn heap_mapped(s: Mem, space: u64, n: int) -> (Mem, Result<(), &'static str>)
    decreases n,
{
    if n <= 0 {
        (s, Ok(()))
    } else {
        let (s1, r) = heap_mapped(s, space, n - 1);
        match r {
            Err(e) => (s1, Err(e)),
            Ok(_) => placed(
                s1,
                space,
                (HEAP_BASE + (n - 1) * 4096) as u64,
                PAGE_WRITABLE,
                Seq::empty(),
                NO_HEAP,
            ),
        }
    }
}

proof fn lemma_heap_fail(s: Mem, space: u64, n: int, m: int)
    requires
        n <= m,
        heap_mapped(s, space, n).1 is Err,
    ensures
        heap_mapped(s, space, m) == heap_mapped(s, space, n),
    decreases m - n,
{
    if n < m && m > 0 {
        lemma_heap_fail(s, space, n, m - 1);
    }
}

/// Maps the heap's pages in the current address space.
pub fn init(mem: &mut Memory) -> (r: Result<(), &'static str>)
    requires
        old(mem).wf(),
        space_ok(old(mem)@, crate::paging::target(old(mem).cr3)),
    ensures
        final(mem).wf(),
        space_ok(final(mem)@, crate::paging::target(final(mem).cr3)),
        final(mem).cr3 == old(mem).cr3,
        final(mem).nx == old(mem).nx,
        final(mem).pmm.ready() == old(mem).pmm.ready(),
        final(mem).pmm.offset() == old(mem).pmm.offset(),
        (final(mem)@, r) == heap_mapped(old(mem)@, crate::paging::target(old(mem).cr3), 24576),
{
    let ghost s = mem@;
    let space: u64 = crate::paging::current_cr3(mem);
    let empty: Vec<u8> = Vec::new();
    assert(empty@ =~= Seq::empty());
    proof {
        assert(2u64 & 0x000F_FFFF_FFFF_F000u64 == 0) by (bit_vector);
    }
    for i in 0..24576u64
        invariant
            empty@ == Seq::<u8>::empty(),
            PAGE_WRITABLE & ADDR_MASK == 0,
            s == old(mem)@,
            mem.wf(),
            mem.cr3 == old(mem).cr3,
            mem.nx == old(mem).nx,
            mem.pmm.ready() == old(mem).pmm.ready(),
            mem.pmm.offset() == old(mem).pmm.offset(),
            space == crate::paging::target(mem.cr3),
            space_ok(mem@, space),
            heap_mapped(s, space, i as int) == (mem@, Ok::<(), &'static str>(())),
    {
        proof {
            if heap_mapped(s, space, i + 1).1 is Err {
                lemma_heap_fail(s, space, i + 1, 24576);
            }
        }
        match place_page(mem, space, HEAP_BASE + i * 4096, PAGE_WRITABLE, empty.as_slice(), NO_HEAP) {
            Ok(_) => {},
            Err(e) => {
                return Err(e);
            },
        }
    }
    Ok(())
}

} // verus!
