//! Private mappings of user memory: which ranges of each address space are
//! mapped, with what protection and from what file. Pages come into being
//! when they are first touched.
use crate::fat16::Fs;
use crate::paging::{
    current_cr3, law_unmap, leaf_of, pages_touched, path_ok, path_used, protect_range_in, reflagged_pages, tables_ok,
    tables_used, target, translate, translation, tried, try_map_page_in, unmap_page, unmapped, Mem, Memory, PAGE_NX,
    PAGE_USER, PAGE_WRITABLE,
};
use crate::pmm::{alloc_frame, free_frame, law_allocation, Frames, FRAME_SIZE};
use crate::ram::{store_bytes, with_bytes};
use crate::room::lemma_frame_filled;
use crate::task::{FileBacking, USER_MMAP_BASE};
use crate::vaddr::lemma_index;
use crate::volume::{Image, Layout};
use vstd::prelude::*;

verus! {

broadcast use lemma_index;

pub const PAGE: u64 = 4096;

pub const USER_END: u64 = 0x0000_8000_0000_0000;

pub const CAPACITY: usize = 2048;

pub const EINVAL: i64 = -22;

pub const ENOMEM: i64 = -12;

pub const ENOSYS: i64 = -38;

pub const EACCES: i64 = -13;

/// The largest offset into a file.
pub const MAX_OFFSET: u64 = 0x7FFF_FFFF_FFFF_FFFF;

/// A mapped range of one address space. The byte at `start` is the one at
/// `offset` of the backing, or zero if there is none.
#[derive(Clone, Copy)]
pub struct Region {
    pub cr3: u64,
    pub start: u64,
    pub end: u64,
    pub prot: u64,
    pub shared_readonly: bool,
    pub backing: Option<FileBacking>,
    pub offset: u64,
}

impl Region {
    pub open spec fn wf(self) -> bool {
        &&& PAGE <= self.start < self.end <= USER_END
        &&& self.start % PAGE == 0
        &&& self.end % PAGE == 0
        &&& self.offset % PAGE == 0
        &&& self.offset + (self.end - self.start) <= MAX_OFFSET
        &&& self.prot <= 7
    }

    /// Whether the region covers the address `a` of the address space `cr3`.
    pub open spec fn covers(self, cr3: u64, a: u64) -> bool {
        self.cr3 == cr3 && self.start <= a < self.end
    }

    /// Whether the region lies on both sides of the address `at`.
    pub open spec fn straddles(self, cr3: u64, at: u64) -> bool {
        self.cr3 == cr3 && self.start < at < self.end
    }

    pub open spec fn within(self, cr3: u64, start: u64, end: u64) -> bool {
        self.cr3 == cr3 && start <= self.start && self.end <= end
    }

    pub open spec fn overlaps(self, other: Region) -> bool {
        self.cr3 == other.cr3 && self.start < other.end && other.start < self.end
    }
}

pub type Table = Seq<Option<Region>>;

/// The table of all mapped ranges.
pub struct Regions {
    pub table: Vec<Option<Region>>,
}

/// Every region in the table is well-formed, and no two of the same address
/// space overlap.
pub open spec fn table_ok(t: Table) -> bool {
    &&& forall|i: int| 0 <= i < t.len() ==> (#[trigger] t[i] matches Some(r) ==> r.wf())
    &&& forall|i: int, j: int|
        0 <= i < j < t.len() && t[i] is Some && t[j] is Some ==> !(#[trigger] t[i]->0).overlaps(
            #[trigger] t[j]->0,
        )
}

impl Regions {
    pub open spec fn view(self) -> Table {
        self.table@
    }

    pub open spec fn wf(self) -> bool {
        self@.len() == CAPACITY && table_ok(self@)
    }

    pub fn new() -> (r: Regions)
        ensures
            r.wf(),
            forall|i: int| 0 <= i < CAPACITY ==> #[trigger] r@[i] is None,
    {
        let mut table: Vec<Option<Region>> = Vec::new();
        for i in 0..CAPACITY
            invariant
                table@.len() == i,
                forall|k: int| 0 <= k < i ==> #[trigger] table@[k] is None,
        {
            table.push(None);
        }
        Regions { table }
    }
}

/// Where a range of `len` bytes from `addr` on ends, in whole pages. It must
/// start on a page, not the first one, and lie in the user half.
pub open spec fn range_end(addr: u64, len: u64) -> Result<u64, i64> {
    let rounded = (len + PAGE - 1) / PAGE as int * PAGE;
    if addr < PAGE || addr % PAGE != 0 || len == 0 || len + PAGE - 1 > u64::MAX || addr + rounded > USER_END {
        Err(EINVAL)
    } else {
        Ok((addr + rounded) as u64)
    }
}

fn range(addr: u64, len: u64) -> (r: Result<u64, i64>)
    ensures
        r == range_end(addr, len),
        r matches Ok(end) ==> addr < end <= USER_END && end % PAGE == 0,
{
    if addr < PAGE || addr % PAGE != 0 || len == 0 {
        return Err(EINVAL);
    }
    match len.checked_add(PAGE - 1) {
        None => Err(EINVAL),
        Some(n) => {
            let rounded: u64 = n / PAGE * PAGE;
            match addr.checked_add(rounded) {
                None => Err(EINVAL),
                Some(end) => if end > USER_END {
                    Err(EINVAL)
                } else {
                    Ok(end)
                },
            }
        },
    }
}

/// The page flags for a protection: no access at all without any right, and
/// no execution unless asked for, where the CPU can forbid it.
pub open spec fn page_flags(prot: u64, nx: bool) -> u64 {
    (if prot != 0 {
        PAGE_USER
    } else {
        0
    }) | (if prot & 2 != 0 {
        PAGE_WRITABLE
    } else {
        0
    }) | (if prot & 4 == 0 && nx {
        PAGE_NX
    } else {
        0
    })
}

fn flags(prot: u64, nx: bool) -> (r: u64)
    ensures
        r == page_flags(prot, nx),
{
    (if prot != 0 {
        PAGE_USER
    } else {
        0
    }) | (if prot & 2 != 0 {
        PAGE_WRITABLE
    } else {
        0
    }) | (if prot & 4 == 0 && nx {
        PAGE_NX
    } else {
        0
    })
}

// ---- The table ----

pub open spec fn free_slots(t: Table) -> nat
    decreases t.len(),
{
    if t.len() == 0 {
        0
    } else {
        free_slots(t.drop_last()) + if t.last() is None {
            1nat
        } else {
            0nat
        }
    }
}

proof fn lemma_free_update(t: Table, i: int, v: Option<Region>)
    requires
        0 <= i < t.len(),
    ensures
        free_slots(t.update(i, v)) + (if t[i] is None {
            1nat
        } else {
            0nat
        }) == free_slots(t) + (if v is None {
            1nat
        } else {
            0nat
        }),
    decreases t.len(),
{
    let u = t.update(i, v);
    if i < t.len() - 1 {
        lemma_free_update(t.drop_last(), i, v);
        assert(u.drop_last() =~= t.drop_last().update(i, v));
    } else {
        assert(u.drop_last() =~= t.drop_last());
    }
}

/// Turning regions into free slots frees no fewer.
proof fn lemma_free_more(t: Table, u: Table)
    requires
        t.len() == u.len(),
        forall|i: int| 0 <= i < t.len() && t[i] is None ==> #[trigger] u[i] is None,
    ensures
        free_slots(t) <= free_slots(u),
    decreases t.len(),
{
    if t.len() > 0 {
        assert(t.last() is None ==> u[t.len() - 1] is None);
        assert forall|i: int| 0 <= i < t.drop_last().len() && t.drop_last()[i] is None implies #[trigger] u.drop_last()[i] is None by {
            assert(u[i] is None);
        }
        lemma_free_more(t.drop_last(), u.drop_last());
    }
}

/// The first free slot from `from` on.
pub open spec fn first_slot(t: Table, from: int) -> Option<int>
    decreases t.len() - from,
{
    if from >= t.len() {
        None
    } else if t[from] is None {
        Some(from)
    } else {
        first_slot(t, from + 1)
    }
}

proof fn lemma_first_slot(t: Table, from: int)
    requires
        0 <= from <= t.len(),
    ensures
        first_slot(t, from) matches Some(i) ==> from <= i < t.len() && t[i] is None,
        first_slot(t, from) is None ==> forall|i: int| from <= i < t.len() ==> #[trigger] t[i] is Some,
    decreases t.len() - from,
{
    if from < t.len() && t[from] is Some {
        lemma_first_slot(t, from + 1);
    }
}

proof fn lemma_no_free(t: Table)
    requires
        forall|i: int| 0 <= i < t.len() ==> #[trigger] t[i] is Some,
    ensures
        free_slots(t) == 0,
    decreases t.len(),
{
    if t.len() > 0 {
        assert(t[t.len() - 1] is Some);
        assert forall|i: int| 0 <= i < t.drop_last().len() implies #[trigger] t.drop_last()[i] is Some by {
            assert(t[i] is Some);
        }
        lemma_no_free(t.drop_last());
    }
}

/// The table with a region added in its first free slot.
pub open spec fn inserted(t: Table, r: Region) -> Table {
    match first_slot(t, 0) {
        Some(i) => t.update(i, Some(r)),
        None => t,
    }
}

/// How many regions straddle `at`.
pub open spec fn straddling(t: Table, cr3: u64, at: u64) -> nat
    decreases t.len(),
{
    if t.len() == 0 {
        0
    } else {
        straddling(t.drop_last(), cr3, at) + if t.last() matches Some(r) && r.straddles(cr3, at) {
            1nat
        } else {
            0nat
        }
    }
}

proof fn lemma_straddling(t: Table, cr3: u64, at: u64, i: int)
    requires
        0 <= i < t.len(),
        t[i] matches Some(r) && r.straddles(cr3, at),
    ensures
        straddling(t, cr3, at) > 0,
    decreases t.len(),
{
    if i < t.len() - 1 {
        lemma_straddling(t.drop_last(), cr3, at, i);
    }
}

proof fn lemma_straddling_bound(t: Table, cr3: u64, at: u64)
    ensures
        straddling(t, cr3, at) <= t.len(),
    decreases t.len(),
{
    if t.len() > 0 {
        lemma_straddling_bound(t.drop_last(), cr3, at);
    }
}

/// The first region from slot `from` on that straddles `at`.
pub open spec fn first_straddling(t: Table, cr3: u64, at: u64, from: int) -> Option<int>
    decreases t.len() - from,
{
    if from >= t.len() {
        None
    } else if t[from] matches Some(r) && r.straddles(cr3, at) {
        Some(from)
    } else {
        first_straddling(t, cr3, at, from + 1)
    }
}

proof fn lemma_first_straddling(t: Table, cr3: u64, at: u64, from: int)
    requires
        0 <= from <= t.len(),
    ensures
        first_straddling(t, cr3, at, from) matches Some(i) ==> from <= i < t.len() && t[i] is Some
            && (t[i]->0).straddles(cr3, at),
        first_straddling(t, cr3, at, from) is None ==> forall|i: int|
            from <= i < t.len() && t[i] is Some ==> !(#[trigger] t[i]->0).straddles(cr3, at),
    decreases t.len() - from,
{
    if from < t.len() && !(t[from] matches Some(r) && r.straddles(cr3, at)) {
        lemma_first_straddling(t, cr3, at, from + 1);
    }
}

/// The table with the region that straddles `at` cut in two there.
pub open spec fn split(t: Table, cr3: u64, at: u64) -> Table {
    match first_straddling(t, cr3, at, 0) {
        None => t,
        Some(i) => {
            let r = t[i]->0;
            let left = Region { end: at, ..r };
            let right = Region { start: at, offset: (r.offset + (at - r.start)) as u64, ..r };
            inserted(t.update(i, Some(left)), right)
        },
    }
}

/// The table without the regions that lie within `start..end`.
pub open spec fn cleared(t: Table, cr3: u64, start: u64, end: u64) -> Table {
    Seq::new(
        t.len(),
        |i: int|
            if t[i] matches Some(r) && r.within(cr3, start, end) {
                None
            } else {
                t[i]
            },
    )
}

/// The table with another protection for the regions that lie within
/// `start..end`.
pub open spec fn reprotected(t: Table, cr3: u64, start: u64, end: u64, prot: u64) -> Table {
    Seq::new(
        t.len(),
        |i: int|
            match t[i] {
                Some(r) => if r.within(cr3, start, end) {
                    Some(Region { prot, ..r })
                } else {
                    Some(r)
                },
                None => None,
            },
    )
}

/// The table with its regions cut at `start` and at `end`.
pub open spec fn cut(t: Table, cr3: u64, start: u64, end: u64) -> Table {
    split(split(t, cr3, start), cr3, end)
}

/// The first region from slot `from` on that covers an address.
pub open spec fn region_from(t: Table, cr3: u64, a: u64, from: int) -> Option<int>
    decreases t.len() - from,
{
    if from >= t.len() {
        None
    } else if t[from] matches Some(r) && r.covers(cr3, a) {
        Some(from)
    } else {
        region_from(t, cr3, a, from + 1)
    }
}

pub proof fn lemma_region_from(t: Table, cr3: u64, a: u64, from: int)
    requires
        0 <= from <= t.len(),
    ensures
        region_from(t, cr3, a, from) matches Some(i) ==> from <= i < t.len() && t[i] is Some
            && (t[i]->0).covers(cr3, a),
        region_from(t, cr3, a, from) is None ==> forall|i: int|
            from <= i < t.len() && t[i] is Some ==> !(#[trigger] t[i]->0).covers(cr3, a),
    decreases t.len() - from,
{
    if from < t.len() && !(t[from] matches Some(r) && r.covers(cr3, a)) {
        lemma_region_from(t, cr3, a, from + 1);
    }
}

/// The end of the last mapped range of an address space, or the lowest
/// address for mappings if that is higher.
pub open spec fn top_of(t: Table, cr3: u64) -> u64
    decreases t.len(),
{
    if t.len() == 0 {
        USER_MMAP_BASE
    } else {
        let before = top_of(t.drop_last(), cr3);
        match t.last() {
            Some(r) => if r.cr3 == cr3 && r.end > before {
                r.end
            } else {
                before
            },
            None => before,
        }
    }
}

proof fn lemma_top(t: Table, cr3: u64)
    ensures
        top_of(t, cr3) >= USER_MMAP_BASE,
        forall|i: int|
            0 <= i < t.len() && t[i] is Some && (t[i]->0).cr3 == cr3 ==> (#[trigger] t[i]->0).end <= top_of(t, cr3),
    decreases t.len(),
{
    if t.len() > 0 {
        lemma_top(t.drop_last(), cr3);
        assert forall|i: int|
            0 <= i < t.len() && t[i] is Some && (t[i]->0).cr3 == cr3 implies (#[trigger] t[i]->0).end <= top_of(
            t,
            cr3,
        ) by {
            if i < t.len() - 1 {
                assert(t.drop_last()[i] == t[i]);
            }
        }
    }
}

impl Regions {
    fn free_count(&self) -> (r: usize)
        requires
            self@.len() == CAPACITY,
        ensures
            r == free_slots(self@),
    {
        let mut n: usize = 0;
        for i in 0..CAPACITY
            invariant
                self@.len() == CAPACITY,
                n <= i,
                n == free_slots(self@.take(i as int)),
        {
            assert(self@.take(i + 1).drop_last() =~= self@.take(i as int));
            if self.table[i].is_none() {
                n += 1;
            }
        }
        assert(self@.take(CAPACITY as int) =~= self@);
        n
    }

    fn insert(&mut self, region: Region)
        requires
            old(self)@.len() == CAPACITY,
            free_slots(old(self)@) > 0,
        ensures
            final(self)@ == inserted(old(self)@, region),
            final(self)@.len() == CAPACITY,
            free_slots(final(self)@) + 1 == free_slots(old(self)@),
    {
        let ghost t = self@;
        let mut i: usize = 0;
        proof {
            lemma_first_slot(t, 0);
            if first_slot(t, 0) is None {
                lemma_no_free(t);
            }
        }
        while i < CAPACITY && self.table[i].is_some()
            invariant
                self@ == t,
                t.len() == CAPACITY,
                i <= CAPACITY,
                first_slot(t, 0) is Some,
                first_slot(t, 0) == first_slot(t, i as int),
            decreases CAPACITY - i,
        {
            i += 1;
        }
        proof {
            lemma_free_update(t, i as int, Some(region));
        }
        self.table[i] = Some(region);
    }

    fn splits(&self, cr3: u64, start: u64, end: u64) -> (r: usize)
        requires
            self@.len() == CAPACITY,
        ensures
            r == straddling(self@, cr3, start) + straddling(self@, cr3, end),
    {
        let mut n: usize = 0;
        for i in 0..CAPACITY
            invariant
                self@.len() == CAPACITY,
                n <= 2 * i,
                n == straddling(self@.take(i as int), cr3, start) + straddling(self@.take(i as int), cr3, end),
        {
            assert(self@.take(i + 1).drop_last() =~= self@.take(i as int));
            if let Some(r) = self.table[i] {
                if r.cr3 == cr3 && r.start < start && start < r.end {
                    n += 1;
                }
                if r.cr3 == cr3 && r.start < end && end < r.end {
                    n += 1;
                }
            }
        }
        assert(self@.take(CAPACITY as int) =~= self@);
        n
    }

    fn split_at(&mut self, cr3: u64, at: u64)
        requires
            old(self).wf(),
            at % PAGE == 0,
            straddling(old(self)@, cr3, at) > 0 ==> free_slots(old(self)@) > 0,
        ensures
            final(self)@ == split(old(self)@, cr3, at),
            final(self).wf(),
            free_slots(final(self)@) + (if first_straddling(old(self)@, cr3, at, 0) is Some {
                1nat
            } else {
                0nat
            }) == free_slots(old(self)@),
    {
        let ghost t = self@;
        proof {
            lemma_split_ok(t, cr3, at);
        }
        for i in 0..CAPACITY
            invariant
                self@ == t,
                t == old(self)@,
                t.len() == CAPACITY,
                table_ok(t),
                at % PAGE == 0,
                split(t, cr3, at).len() == CAPACITY,
                table_ok(split(t, cr3, at)),
                straddling(t, cr3, at) > 0 ==> free_slots(t) > 0,
                first_straddling(t, cr3, at, 0) == first_straddling(t, cr3, at, i as int),
        {
            if let Some(r) = self.table[i] {
                assert(t[i as int] is Some);
                if r.cr3 == cr3 && r.start < at && at < r.end {
                    proof {
                        lemma_straddling(t, cr3, at, i as int);
                    }
                    let mut right = r;
                    right.start = at;
                    right.offset = r.offset + (at - r.start);
                    let mut left = r;
                    left.end = at;
                    proof {
                        lemma_free_update(t, i as int, Some(left));
                    }
                    self.table[i] = Some(left);
                    self.insert(right);
                    return;
                }
            }
        }
    }

    fn top(&self, cr3: u64) -> (r: u64)
        ensures
            r == top_of(self@, cr3),
    {
        let mut best: u64 = USER_MMAP_BASE;
        let n: usize = self.table.len();
        for i in 0..n
            invariant
                n == self@.len(),
                best == top_of(self@.take(i as int), cr3),
        {
            assert(self@.take(i + 1).drop_last() =~= self@.take(i as int));
            if let Some(r) = self.table[i] {
                if r.cr3 == cr3 && r.end > best {
                    best = r.end;
                }
            }
        }
        assert(self@.take(n as int) =~= self@);
        best
    }

    fn find(&self, cr3: u64, a: u64) -> (r: Option<usize>)
        ensures
            match region_from(self@, cr3, a, 0) {
                Some(i) => r == Some(i as usize) && 0 <= i < self@.len() && self@[i] is Some && (self@[i]->0).covers(
                    cr3,
                    a,
                ),
                None => r is None,
            },
    {
        let n: usize = self.table.len();
        proof {
            lemma_region_from(self@, cr3, a, 0);
        }
        for i in 0..n
            invariant
                n == self@.len(),
                region_from(self@, cr3, a, 0) == region_from(self@, cr3, a, i as int),
                region_from(self@, cr3, a, 0) matches Some(k) ==> 0 <= k < self@.len() && self@[k] is Some && (
                self@[k]->0).covers(cr3, a),
        {
            if let Some(r) = self.table[i] {
                if r.cr3 == cr3 && r.start <= a && a < r.end {
                    return Some(i);
                }
            }
        }
        None
    }

    fn clear(&mut self, cr3: u64, start: u64, end: u64)
        requires
            old(self).wf(),
        ensures
            final(self)@ == cleared(old(self)@, cr3, start, end),
            final(self).wf(),
            free_slots(old(self)@) <= free_slots(final(self)@),
    {
        let ghost t = self@;
        let ghost u = cleared(t, cr3, start, end);
        for i in 0..CAPACITY
            invariant
                t.len() == CAPACITY,
                self@.len() == CAPACITY,
                u == cleared(t, cr3, start, end),
                forall|k: int|
                    0 <= k < CAPACITY ==> #[trigger] self@[k] == if k < i {
                        u[k]
                    } else {
                        t[k]
                    },
        {
            assert(self@[i as int] == t[i as int]);
            if let Some(r) = self.table[i] {
                if r.cr3 == cr3 && r.start >= start && r.end <= end {
                    self.table[i] = None;
                }
            }
        }
        assert(self@ =~= u);
        proof {
            lemma_free_more(t, u);
        }
    }

    fn reprotect(&mut self, cr3: u64, start: u64, end: u64, prot: u64)
        requires
            old(self).wf(),
            prot <= 7,
        ensures
            final(self)@ == reprotected(old(self)@, cr3, start, end, prot),
            final(self).wf(),
    {
        let ghost t = self@;
        let ghost u = reprotected(t, cr3, start, end, prot);
        for i in 0..CAPACITY
            invariant
                t.len() == CAPACITY,
                self@.len() == CAPACITY,
                u == reprotected(t, cr3, start, end, prot),
                forall|k: int|
                    0 <= k < CAPACITY ==> #[trigger] self@[k] == if k < i {
                        u[k]
                    } else {
                        t[k]
                    },
        {
            assert(self@[i as int] == t[i as int]);
            if let Some(r) = self.table[i] {
                if r.cr3 == cr3 && r.start >= start && r.end <= end {
                    let mut changed = r;
                    changed.prot = prot;
                    self.table[i] = Some(changed);
                }
            }
        }
        assert(self@ =~= u);
        proof {
            lemma_reprotected_ok(t, cr3, start, end, prot);
        }
    }
}

/// Cutting a region in two keeps the table in order.
proof fn lemma_split_ok(t: Table, cr3: u64, at: u64)
    requires
        table_ok(t),
        at % PAGE == 0,
        straddling(t, cr3, at) > 0 ==> free_slots(t) > 0,
    ensures
        table_ok(split(t, cr3, at)),
        split(t, cr3, at).len() == t.len(),
{
    lemma_first_straddling(t, cr3, at, 0);
    if let Some(i) = first_straddling(t, cr3, at, 0) {
        lemma_straddling(t, cr3, at, i);
        let r = t[i]->0;
        let left = Region { end: at, ..r };
        let right = Region { start: at, offset: (r.offset + (at - r.start)) as u64, ..r };
        let u = t.update(i, Some(left));
        lemma_free_update(t, i, Some(left));
        lemma_first_slot(u, 0);
        if first_slot(u, 0) is None {
            lemma_no_free(u);
        }
        let k = first_slot(u, 0)->0;
        let v = split(t, cr3, at);
        assert(v == u.update(k, Some(right)));
        assert(i != k);
        assert(r.wf());
        assert forall|a: int, b: int| 0 <= a < b < v.len() && v[a] is Some && v[b] is Some implies !(
        #[trigger] v[a]->0).overlaps(#[trigger] v[b]->0) by {
            assert(a != i && a != k ==> v[a] == t[a]);
            assert(b != i && b != k ==> v[b] == t[b]);
            if a != k && b != k {
                assert(!(t[a]->0).overlaps(t[b]->0));
            } else if a == k && b != i {
                if b < i {
                    assert(!(t[b]->0).overlaps(t[i]->0));
                } else {
                    assert(!(t[i]->0).overlaps(t[b]->0));
                }
            } else if b == k && a != i {
                if a < i {
                    assert(!(t[a]->0).overlaps(t[i]->0));
                } else {
                    assert(!(t[i]->0).overlaps(t[a]->0));
                }
            }
        }
    }
}

proof fn lemma_reprotected_ok(t: Table, cr3: u64, start: u64, end: u64, prot: u64)
    requires
        table_ok(t),
        prot <= 7,
    ensures
        table_ok(reprotected(t, cr3, start, end, prot)),
{
    let u = reprotected(t, cr3, start, end, prot);
    assert forall|i: int, j: int| 0 <= i < j < u.len() && u[i] is Some && u[j] is Some implies !(
    #[trigger] u[i]->0).overlaps(#[trigger] u[j]->0) by {
        assert(t[i] is Some && t[j] is Some);
        assert(!(t[i]->0).overlaps(t[j]->0));
    }
}

/// Cutting the table at `start` takes away no region that straddles `end`
/// and adds none.
proof fn lemma_cut_room(t: Table, cr3: u64, start: u64, end: u64)
    requires
        table_ok(t),
        start < end,
        start % PAGE == 0,
        free_slots(t) >= straddling(t, cr3, start) + straddling(t, cr3, end),
    ensures
        straddling(split(t, cr3, start), cr3, end) > 0 ==> straddling(t, cr3, end) > 0,
{
    let u = split(t, cr3, start);
    if straddling(u, cr3, end) > 0 {
        lemma_straddling_some(u, cr3, end);
        let k = choose|k: int| 0 <= k < u.len() && #[trigger] u[k] is Some && (u[k]->0).straddles(cr3, end);
        lemma_first_straddling(t, cr3, start, 0);
        if let Some(i) = first_straddling(t, cr3, start, 0) {
            let r = t[i]->0;
            let left = Region { end: start, ..r };
            let v = t.update(i, Some(left));
            lemma_first_slot(v, 0);
            if first_slot(v, 0) == Some(k) {
                lemma_straddling(t, cr3, end, i);
            } else {
                assert(k != i);
                lemma_straddling(t, cr3, end, k);
            }
        } else {
            lemma_straddling(t, cr3, end, k);
        }
    }
}

proof fn lemma_straddling_some(t: Table, cr3: u64, at: u64)
    requires
        straddling(t, cr3, at) > 0,
    ensures
        exists|k: int| 0 <= k < t.len() && #[trigger] t[k] is Some && (t[k]->0).straddles(cr3, at),
    decreases t.len(),
{
    if t.last() matches Some(r) && r.straddles(cr3, at) {
        assert(t[t.len() - 1] is Some);
    } else {
        lemma_straddling_some(t.drop_last(), cr3, at);
        let k = choose|k: int|
            0 <= k < t.drop_last().len() && #[trigger] t.drop_last()[k] is Some && (t.drop_last()[k]->0).straddles(
                cr3,
                at,
            );
        assert(t[k] is Some);
    }
}

/// Once the table is cut at both ends of a range, each region lies within the
/// range or outside it.
proof fn lemma_cut(t: Table, cr3: u64, start: u64, end: u64)
    requires
        table_ok(t),
        start < end,
        start % PAGE == 0,
        end % PAGE == 0,
        free_slots(t) >= straddling(t, cr3, start) + straddling(t, cr3, end),
    ensures
        cut(t, cr3, start, end).len() == t.len(),
        table_ok(cut(t, cr3, start, end)),
        forall|k: int|
            #![trigger cut(t, cr3, start, end)[k]]
            0 <= k < t.len() && cut(t, cr3, start, end)[k] is Some ==> !(cut(t, cr3, start, end)[k]->0).straddles(
                cr3,
                start,
            ) && !(cut(t, cr3, start, end)[k]->0).straddles(cr3, end),
        free_slots(cut(t, cr3, start, end)) + straddling(t, cr3, start) + straddling(t, cr3, end) >= free_slots(t),
{
    lemma_split_ok(t, cr3, start);
    lemma_split_done(t, cr3, start);
    let u = split(t, cr3, start);
    lemma_cut_room(t, cr3, start, end);
    lemma_split_free(t, cr3, start);
    lemma_split_ok(u, cr3, end);
    lemma_split_done(u, cr3, end);
    lemma_split_free(u, cr3, end);
    let v = split(u, cr3, end);
    lemma_split_parts(u, cr3, end);
    assert forall|k: int| 0 <= k < t.len() && (#[trigger] v[k]) is Some implies !(v[k]->0).straddles(cr3, start)
        && !(v[k]->0).straddles(cr3, end) by {
        let j = choose|j: int|
            0 <= j < u.len() && #[trigger] u[j] is Some && (u[j]->0).start <= (v[k]->0).start && (v[k]->0).end <= (
            u[j]->0).end && (u[j]->0).cr3 == (v[k]->0).cr3;
        assert(!(u[j]->0).straddles(cr3, start));
    }
}

/// Cutting takes up one slot at most, and none if no region straddles.
proof fn lemma_split_free(t: Table, cr3: u64, at: u64)
    requires
        table_ok(t),
        at % PAGE == 0,
        straddling(t, cr3, at) > 0 ==> free_slots(t) > 0,
    ensures
        straddling(t, cr3, at) > 0 ==> free_slots(split(t, cr3, at)) + 1 == free_slots(t),
        straddling(t, cr3, at) == 0 ==> free_slots(split(t, cr3, at)) == free_slots(t),
{
    lemma_first_straddling(t, cr3, at, 0);
    if straddling(t, cr3, at) > 0 {
        lemma_straddling_some(t, cr3, at);
    }
    if let Some(i) = first_straddling(t, cr3, at, 0) {
        lemma_straddling(t, cr3, at, i);
        let r = t[i]->0;
        let left = Region { end: at, ..r };
        let right = Region { start: at, offset: (r.offset + (at - r.start)) as u64, ..r };
        let u = t.update(i, Some(left));
        lemma_free_update(t, i, Some(left));
        lemma_first_slot(u, 0);
        if first_slot(u, 0) is None {
            lemma_no_free(u);
        }
        lemma_free_update(u, first_slot(u, 0)->0, Some(right));
    }
}

/// Every region of a table after a cut is part of one before it.
proof fn lemma_split_parts(t: Table, cr3: u64, at: u64)
    requires
        table_ok(t),
        at % PAGE == 0,
        straddling(t, cr3, at) > 0 ==> free_slots(t) > 0,
    ensures
        forall|k: int|
            0 <= k < t.len() && (#[trigger] split(t, cr3, at)[k]) is Some ==> exists|j: int|
                0 <= j < t.len() && #[trigger] t[j] is Some && (t[j]->0).start <= (split(t, cr3, at)[k]->0).start && (
                split(t, cr3, at)[k]->0).end <= (t[j]->0).end && (t[j]->0).cr3 == (split(t, cr3, at)[k]->0).cr3,
{
    lemma_first_straddling(t, cr3, at, 0);
    let v = split(t, cr3, at);
    assert forall|k: int| 0 <= k < t.len() && (#[trigger] v[k]) is Some implies exists|j: int|
        0 <= j < t.len() && #[trigger] t[j] is Some && (t[j]->0).start <= (v[k]->0).start && (v[k]->0).end <= (
        t[j]->0).end && (t[j]->0).cr3 == (v[k]->0).cr3 by {
        if let Some(i) = first_straddling(t, cr3, at, 0) {
            let r = t[i]->0;
            let left = Region { end: at, ..r };
            let u = t.update(i, Some(left));
            lemma_first_slot(u, 0);
            if k == i || Some(k) == first_slot(u, 0) {
                assert(t[i] is Some);
            } else {
                assert(t[k] is Some);
            }
        } else {
            assert(t[k] is Some);
        }
    }
}

/// After a cut, no region straddles the place.
proof fn lemma_split_done(t: Table, cr3: u64, at: u64)
    requires
        table_ok(t),
        at % PAGE == 0,
        straddling(t, cr3, at) > 0 ==> free_slots(t) > 0,
    ensures
        forall|k: int|
            0 <= k < t.len() && (#[trigger] split(t, cr3, at)[k]) is Some ==> !(split(t, cr3, at)[k]->0).straddles(
                cr3,
                at,
            ),
{
    lemma_first_straddling(t, cr3, at, 0);
    let v = split(t, cr3, at);
    if let Some(i) = first_straddling(t, cr3, at, 0) {
        let r = t[i]->0;
        let left = Region { end: at, ..r };
        let u = t.update(i, Some(left));
        lemma_first_slot(u, 0);
        assert forall|k: int| 0 <= k < t.len() && (#[trigger] v[k]) is Some implies !(v[k]->0).straddles(
            cr3,
            at,
        ) by {
            if k != i && Some(k) != first_slot(u, 0) {
                assert(v[k] == t[k]);
                if k < i {
                    assert(!(t[k]->0).overlaps(t[i]->0));
                } else {
                    assert(!(t[i]->0).overlaps(t[k]->0));
                }
            }
        }
    }
}

// ---- Pages ----

/// Every page of the user half that is mapped has a frame that the allocator
/// knows.
pub open spec fn pages_known(s: Mem, cr3: u64) -> bool {
    forall|v: u64|
        v < USER_END ==> (#[trigger] translation(s.ram, cr3, v) matches Some(p) ==> p / FRAME_SIZE
            < s.frames.used.len())
}

/// Memory after the page at `v`, if it is mapped, has been given up.
pub open spec fn page_freed(s: Mem, cr3: u64, v: u64) -> Mem {
    match translation(s.ram, cr3, v) {
        None => s,
        Some(p) => Mem { ram: unmapped(s.ram, cr3, v), frames: s.frames.release(p) },
    }
}

/// Memory after `n` pages from `start` on have been given up.
pub open spec fn pages_freed(s: Mem, cr3: u64, start: int, n: nat) -> Mem
    decreases n,
{
    if n == 0 {
        s
    } else {
        page_freed(pages_freed(s, cr3, start, (n - 1) as nat), cr3, (start + 4096 * (n - 1)) as u64)
    }
}

fn free_pages(mem: &mut Memory, cr3: u64, start: u64, end: u64)
    requires
        old(mem).wf(),
        old(mem).pmm.ready(),
        tables_ok(old(mem).ram@, cr3),
        pages_known(old(mem)@, cr3),
        start <= end <= USER_END,
        start % PAGE == 0,
        end % PAGE == 0,
    ensures
        final(mem)@ == pages_freed(old(mem)@, cr3, start as int, ((end - start) / 4096) as nat),
        final(mem).wf(),
        final(mem).pmm.ready(),
        final(mem).pmm.offset() == old(mem).pmm.offset(),
        final(mem).cr3 == old(mem).cr3,
        final(mem).nx == old(mem).nx,
        tables_ok(final(mem).ram@, cr3),
        pages_known(final(mem)@, cr3),
{
    let mut at: u64 = start;
    let ghost mut n: nat = 0;
    let ghost s = mem@;
    while at < end
        invariant
            mem.wf(),
            mem.pmm.ready(),
            mem.pmm.offset() == old(mem).pmm.offset(),
            mem.cr3 == old(mem).cr3,
            mem.nx == old(mem).nx,
            tables_ok(mem.ram@, cr3),
            pages_known(mem@, cr3),
            start <= at <= end <= USER_END,
            at % PAGE == 0,
            end % PAGE == 0,
            at == start + 4096 * n,
            mem@ == pages_freed(s, cr3, start as int, n),
        decreases end - at,
    {
        let ghost before = mem@;
        proof {
            law_unmap(before.ram, cr3, at);
            assert(path_ok(before.ram, cr3, at));
            assert(translation(before.ram, cr3, at) matches Some(p) ==> p / FRAME_SIZE < before.frames.used.len());
        }
        if let Some(phys) = unmap_page(mem, cr3, at) {
            free_frame(&mut mem.pmm, phys);
        }
        proof {
            n = n + 1;
            assert(mem@.ram.len() == before.ram.len());
            if translation(before.ram, cr3, at) is None {
                assert(leaf_of(before.ram, cr3, at) is None);
                assert(unmapped(before.ram, cr3, at) == before.ram);
            }
            assert forall|v: u64| v < USER_END implies (#[trigger] translation(mem@.ram, cr3, v) matches Some(p)
                ==> p / FRAME_SIZE < mem@.frames.used.len()) by {
                assert(leaf_of(mem@.ram, cr3, v) is Some ==> leaf_of(mem@.ram, cr3, v) == leaf_of(before.ram, cr3, v));
                assert(translation(before.ram, cr3, v) matches Some(p) ==> p / FRAME_SIZE
                    < before.frames.used.len());
            }
        }
        at += PAGE;
    }
}

// ---- Mapping, unmapping and protecting ----

/// What a request to map memory is refused with before the table is looked
/// at.
pub open spec fn map_refused(prot: u64, map_flags: u64, backing: Option<FileBacking>, offset: u64) -> Option<i64> {
    let kind = map_flags & 3;
    if prot > 7 || offset % PAGE != 0 || offset > MAX_OFFSET {
        Some(EINVAL)
    } else if kind != 1 && kind != 2 {
        Some(EINVAL)
    } else if kind == 1 && (prot & 2 != 0 || backing is None) {
        Some(ENOSYS)
    } else {
        None
    }
}

/// What a request to map memory is answered, and the table and the memory
/// that it leaves. A mapping at a fixed place replaces what was mapped there;
/// any other comes after everything that is mapped.
pub open spec fn mapping(
    t: Table,
    s: Mem,
    cr3: u64,
    addr: u64,
    len: u64,
    prot: u64,
    map_flags: u64,
    backing: Option<FileBacking>,
    offset: u64,
) -> (Table, Mem, Result<i64, i64>) {
    let fixed = map_flags & 0x10 != 0;
    let start = if fixed {
        addr
    } else {
        top_of(t, cr3)
    };
    let shared_readonly = map_flags & 3 == 1;
    match (map_refused(prot, map_flags, backing, offset), range_end(start, len)) {
        (Some(e), _) => (t, s, Err(e)),
        (None, Err(e)) => (t, s, Err(e)),
        (None, Ok(end)) => {
            let region = Region { cr3, start, end, prot, shared_readonly, backing, offset };
            let needed = 1 + if fixed {
                straddling(t, cr3, start) + straddling(t, cr3, end)
            } else {
                0
            };
            if offset + (end - start) > MAX_OFFSET {
                (t, s, Err(EINVAL))
            } else if free_slots(t) < needed {
                (t, s, Err(ENOMEM))
            } else if fixed {
                (
                    inserted(cleared(cut(t, cr3, start, end), cr3, start, end), region),
                    pages_freed(s, cr3, start as int, ((end - start) / 4096) as nat),
                    Ok(start as i64),
                )
            } else {
                (inserted(t, region), s, Ok(start as i64))
            }
        },
    }
}

/// Maps `len` bytes of memory in the current address space, with the contents
/// of a file from `offset` on or with zeros. Nothing is read until a page is
/// touched.
pub fn map(
    regions: &mut Regions,
    mem: &mut Memory,
    addr: u64,
    len: u64,
    prot: u64,
    map_flags: u64,
    backing: Option<FileBacking>,
    offset: u64,
) -> (r: Result<i64, i64>)
    requires
        old(regions).wf(),
        old(mem).wf(),
        old(mem).pmm.ready(),
        tables_ok(old(mem).ram@, target(old(mem).cr3)),
        pages_known(old(mem)@, target(old(mem).cr3)),
    ensures
        final(regions).wf(),
        final(mem).wf(),
        final(mem).pmm.ready(),
        final(mem).pmm.offset() == old(mem).pmm.offset(),
        final(mem).cr3 == old(mem).cr3,
        final(mem).nx == old(mem).nx,
        tables_ok(final(mem).ram@, target(final(mem).cr3)),
        pages_known(final(mem)@, target(final(mem).cr3)),
        (final(regions)@, final(mem)@, r) == mapping(
            old(regions)@,
            old(mem)@,
            target(old(mem).cr3),
            addr,
            len,
            prot,
            map_flags,
            backing,
            offset,
        ),
{
    if prot > 7 || offset % PAGE != 0 || offset > MAX_OFFSET {
        return Err(EINVAL);
    }
    let kind: u64 = map_flags & 3;
    if kind != 1 && kind != 2 {
        return Err(EINVAL);
    }
    if kind == 1 && (prot & 2 != 0 || backing.is_none()) {
        return Err(ENOSYS);
    }
    let cr3: u64 = current_cr3(mem);
    let fixed: bool = map_flags & 0x10 != 0;
    let start: u64 = if fixed {
        addr
    } else {
        regions.top(cr3)
    };
    let end: u64 = match range(start, len) {
        Ok(end) => end,
        Err(e) => {
            return Err(e);
        },
    };
    match offset.checked_add(end - start) {
        None => {
            return Err(EINVAL);
        },
        Some(n) => {
            if n > MAX_OFFSET {
                return Err(EINVAL);
            }
        },
    }
    let ghost t = regions@;
    let needed: usize = if fixed {
        proof {
            lemma_straddling_bound(t, cr3, start);
            lemma_straddling_bound(t, cr3, end);
        }
        regions.splits(cr3, start, end) + 1
    } else {
        1
    };
    if regions.free_count() < needed {
        return Err(ENOMEM);
    }
    let region = Region { cr3, start, end, prot, shared_readonly: kind == 1, backing, offset };
    if fixed {
        proof {
            lemma_cut(t, cr3, start, end);
            lemma_cut_room(t, cr3, start, end);
            lemma_split_free(t, cr3, start);
        }
        regions.split_at(cr3, start);
        regions.split_at(cr3, end);
        proof {
            lemma_cleared_gap(regions@, cr3, start, end);
        }
        regions.clear(cr3, start, end);
        free_pages(mem, cr3, start, end);
    } else {
        proof {
            lemma_top(t, cr3);
        }
    }
    proof {
        assert(region.wf());
        lemma_inserted_ok(regions@, region);
    }
    regions.insert(region);
    Ok(start as i64)
}

/// Once a range is cut and cleared, nothing is mapped in it.
proof fn lemma_cleared_gap(t: Table, cr3: u64, start: u64, end: u64)
    requires
        table_ok(t),
        start < end,
        forall|k: int|
            0 <= k < t.len() && (#[trigger] t[k]) is Some ==> !(t[k]->0).straddles(cr3, start) && !(t[k]->0).straddles(
                cr3,
                end,
            ),
    ensures
        forall|k: int|
            #![trigger cleared(t, cr3, start, end)[k]]
            0 <= k < t.len() && cleared(t, cr3, start, end)[k] is Some && (cleared(t, cr3, start, end)[k]->0).cr3
                == cr3 ==> (cleared(t, cr3, start, end)[k]->0).end <= start || end <= (cleared(
                t,
                cr3,
                start,
                end,
            )[k]->0).start,
{
    let u = cleared(t, cr3, start, end);
    assert forall|k: int| 0 <= k < t.len() && (#[trigger] u[k]) is Some && (u[k]->0).cr3 == cr3 implies (
    u[k]->0).end <= start || end <= (u[k]->0).start by {
        assert(t[k] is Some);
        assert((t[k]->0).wf());
    }
}

proof fn lemma_inserted_ok(t: Table, r: Region)
    requires
        table_ok(t),
        r.wf(),
        free_slots(t) > 0,
        forall|k: int|
            0 <= k < t.len() && (#[trigger] t[k]) is Some && (t[k]->0).cr3 == r.cr3 ==> (t[k]->0).end <= r.start
                || r.end <= (t[k]->0).start,
    ensures
        table_ok(inserted(t, r)),
{
    lemma_first_slot(t, 0);
    if first_slot(t, 0) is None {
        lemma_no_free(t);
    }
    let i = first_slot(t, 0)->0;
    let u = inserted(t, r);
    assert forall|a: int, b: int| 0 <= a < b < u.len() && u[a] is Some && u[b] is Some implies !(
    #[trigger] u[a]->0).overlaps(#[trigger] u[b]->0) by {
        if a == i {
            assert(t[b] is Some);
        } else if b == i {
            assert(t[a] is Some);
        } else {
            assert(!(t[a]->0).overlaps(t[b]->0));
        }
    }
}

/// What a request to unmap memory is answered, and the table and the memory
/// that it leaves.
pub open spec fn unmapping(t: Table, s: Mem, cr3: u64, addr: u64, len: u64) -> (Table, Mem, Result<(), i64>) {
    match range_end(addr, len) {
        Err(e) => (t, s, Err(e)),
        Ok(end) => if free_slots(t) < straddling(t, cr3, addr) + straddling(t, cr3, end) {
            (t, s, Err(ENOMEM))
        } else {
            (
                cleared(cut(t, cr3, addr, end), cr3, addr, end),
                pages_freed(s, cr3, addr as int, ((end - addr) / 4096) as nat),
                Ok(()),
            )
        },
    }
}

/// Unmaps `len` bytes from `addr` on in the current address space and gives
/// their pages back.
pub fn unmap(regions: &mut Regions, mem: &mut Memory, addr: u64, len: u64) -> (r: Result<(), i64>)
    requires
        old(regions).wf(),
        old(mem).wf(),
        old(mem).pmm.ready(),
        tables_ok(old(mem).ram@, target(old(mem).cr3)),
        pages_known(old(mem)@, target(old(mem).cr3)),
    ensures
        final(regions).wf(),
        final(mem).wf(),
        final(mem).pmm.ready(),
        final(mem).pmm.offset() == old(mem).pmm.offset(),
        final(mem).cr3 == old(mem).cr3,
        final(mem).nx == old(mem).nx,
        tables_ok(final(mem).ram@, target(final(mem).cr3)),
        pages_known(final(mem)@, target(final(mem).cr3)),
        (final(regions)@, final(mem)@, r) == unmapping(
            old(regions)@,
            old(mem)@,
            target(old(mem).cr3),
            addr,
            len,
        ),
{
    let end: u64 = match range(addr, len) {
        Ok(end) => end,
        Err(e) => {
            return Err(e);
        },
    };
    let cr3: u64 = current_cr3(mem);
    let ghost t = regions@;
    if regions.free_count() < regions.splits(cr3, addr, end) {
        return Err(ENOMEM);
    }
    proof {
        lemma_cut(t, cr3, addr, end);
        lemma_cut_room(t, cr3, addr, end);
        lemma_split_free(t, cr3, addr);
    }
    regions.split_at(cr3, addr);
    regions.split_at(cr3, end);
    regions.clear(cr3, addr, end);
    free_pages(mem, cr3, addr, end);
    Ok(())
}

/// Whether every page from `at` up to `end` is mapped and may be given the
/// protection `prot`.
pub open spec fn protectable(t: Table, ram: Seq<u64>, cr3: u64, at: int, end: int, prot: u64) -> Result<(), i64>
    decreases
        (if end > at {
            end - at
        } else {
            0
        }),
{
    if at >= end {
        Ok(())
    } else {
        match region_from(t, cr3, at as u64, 0) {
            Some(i) => {
                let r = t[i]->0;
                if r.shared_readonly && prot & 2 != 0 {
                    Err(EACCES)
                } else if r.end <= at {
                    Ok(())
                } else {
                    protectable(t, ram, cr3, r.end as int, end, prot)
                }
            },
            None => if translation(ram, cr3, at as u64) is None {
                Err(ENOMEM)
            } else {
                protectable(t, ram, cr3, at + PAGE, end, prot)
            },
        }
    }
}

/// What a request to change the protection of memory is answered, and the
/// table and the memory that it leaves.
pub open spec fn protecting(t: Table, s: Mem, cr3: u64, nx: bool, addr: u64, len: u64, prot: u64) -> (
    Table,
    Mem,
    Result<(), i64>,
) {
    if prot > 7 || addr % PAGE != 0 {
        (t, s, Err(EINVAL))
    } else if len == 0 {
        (t, s, Ok(()))
    } else {
        match range_end(addr, len) {
            Err(e) => (t, s, Err(e)),
            Ok(end) => match protectable(t, s.ram, cr3, addr as int, end as int, prot) {
                Err(e) => (t, s, Err(e)),
                Ok(_) => if free_slots(t) < straddling(t, cr3, addr) + straddling(t, cr3, end) {
                    (t, s, Err(ENOMEM))
                } else {
                    (
                        reprotected(cut(t, cr3, addr, end), cr3, addr, end, prot),
                        Mem {
                            ram: reflagged_pages(
                                s.ram,
                                cr3,
                                addr as int,
                                ((end - addr) / 4096) as nat,
                                page_flags(prot, nx),
                            ),
                            ..s
                        },
                        Ok(()),
                    )
                },
            },
        }
    }
}

/// Changes the protection of `len` bytes from `addr` on in the current
/// address space. All of it must be mapped.
pub fn protect(regions: &mut Regions, mem: &mut Memory, addr: u64, len: u64, prot: u64) -> (r: Result<(), i64>)
    requires
        old(regions).wf(),
        old(mem).wf(),
        tables_ok(old(mem).ram@, target(old(mem).cr3)),
    ensures
        final(regions).wf(),
        final(mem).wf(),
        final(mem).pmm == old(mem).pmm,
        final(mem).cr3 == old(mem).cr3,
        final(mem).nx == old(mem).nx,
        tables_ok(final(mem).ram@, target(final(mem).cr3)),
        (final(regions)@, final(mem)@, r) == protecting(
            old(regions)@,
            old(mem)@,
            target(old(mem).cr3),
            old(mem).nx,
            addr,
            len,
            prot,
        ),
{
    if prot > 7 || addr % PAGE != 0 {
        return Err(EINVAL);
    }
    if len == 0 {
        return Ok(());
    }
    let end: u64 = match range(addr, len) {
        Ok(end) => end,
        Err(e) => {
            return Err(e);
        },
    };
    let cr3: u64 = current_cr3(mem);
    let ghost t = regions@;
    let mut at: u64 = addr;
    while at < end
        invariant
            at % PAGE == 0,
            end % PAGE == 0,
            end <= USER_END,
            regions.wf(),
            regions@ == t,
            t == old(regions)@,
            *mem == *old(mem),
            mem.wf(),
            cr3 == target(mem.cr3),
            tables_ok(mem.ram@, cr3),
            prot <= 7,
            addr % PAGE == 0,
            len != 0,
            range_end(addr, len) == Ok::<u64, i64>(end),
            protectable(t, mem.ram@, cr3, addr as int, end as int, prot) == protectable(
                t,
                mem.ram@,
                cr3,
                at as int,
                end as int,
                prot,
            ),
        decreases end - at,
    {
        match regions.find(cr3, at) {
            Some(i) => {
                if let Some(r) = regions.table[i] {
                    if r.shared_readonly && prot & 2 != 0 {
                        return Err(EACCES);
                    }
                    proof {
                        assert(t[i as int]->0 == r && r.wf());
                        reveal_with_fuel(protectable, 2);
                    }
                    if r.end >= end {
                        at = end;
                    } else {
                        at = r.end;
                    }
                }
            },
            None => {
                assert(path_ok(mem.ram@, cr3, at));
                if translate(mem, cr3, at).is_none() {
                    return Err(ENOMEM);
                }
                at += PAGE;
            },
        }
    }
    if regions.free_count() < regions.splits(cr3, addr, end) {
        return Err(ENOMEM);
    }
    proof {
        lemma_cut(t, cr3, addr, end);
        lemma_cut_room(t, cr3, addr, end);
        lemma_split_free(t, cr3, addr);
        assert(addr - addr % 4096 == addr);
        assert(pages_touched(addr, (end - addr) as u64) == ((end - addr) / 4096) as nat);
    }
    regions.split_at(cr3, addr);
    regions.split_at(cr3, end);
    regions.reprotect(cr3, addr, end, prot);
    let bits: u64 = flags(prot, mem.nx);
    protect_range_in(mem, cr3, addr, end - addr, bits);
    Ok(())
}

/// The table without the regions of one address space.
pub open spec fn without_space(t: Table, cr3: u64) -> Table {
    Seq::new(
        t.len(),
        |i: int|
            if t[i] matches Some(r) && r.cr3 == cr3 {
                None
            } else {
                t[i]
            },
    )
}

/// Forgets every mapping of one address space.
pub fn destroy(regions: &mut Regions, cr3: u64)
    requires
        old(regions).wf(),
    ensures
        final(regions).wf(),
        final(regions)@ == without_space(old(regions)@, cr3),
{
    let ghost t = regions@;
    let ghost u = without_space(t, cr3);
    for i in 0..CAPACITY
        invariant
            t.len() == CAPACITY,
            regions@.len() == CAPACITY,
            u == without_space(t, cr3),
            forall|k: int|
                0 <= k < CAPACITY ==> #[trigger] regions@[k] == if k < i {
                    u[k]
                } else {
                    t[k]
                },
    {
        assert(regions@[i as int] == t[i as int]);
        if let Some(r) = regions.table[i] {
            if r.cr3 == cr3 {
                regions.table[i] = None;
            }
        }
    }
    assert(regions@ =~= u);
}

// ---- Faults ----

/// Whether a region admits the access that an error code reports: a write
/// needs write permission, an instruction fetch needs execute permission.
pub open spec fn admits(r: Region, error: u64) -> bool {
    r.prot != 0 && (error & 2 != 0 ==> r.prot & 2 != 0) && (error & 16 != 0 ==> r.prot & 4 != 0)
}

/// The contents of a page of a region, read from its backing at
/// `file_offset`, with what reading leaves of the backing.
pub open spec fn page_contents(backing: Option<FileBacking>, d: Image, layout: Option<Layout>, file_offset: int) -> (
    Option<FileBacking>,
    Result<Seq<u8>, i64>,
) {
    let zeros = Seq::new(4096, |i: int| 0u8);
    match backing {
        None => (None, Ok(zeros)),
        Some(b) => {
            let (b1, bytes, n) = b.read(d, layout, file_offset, zeros);
            (
                Some(b1),
                match n {
                    Ok(_) => Ok(bytes),
                    Err(e) => Err(e),
                },
            )
        },
    }
}

/// What a fault on a page is answered, and the table and the memory that
/// handling it leaves. The page gets a frame of its own, filled before it is
/// mapped.
pub open spec fn faulted(
    t: Table,
    s: Mem,
    d: Image,
    layout: Option<Layout>,
    cr3: u64,
    nx: bool,
    addr: u64,
    error: u64,
) -> (Table, Mem, bool) {
    let page = (addr - addr % 4096) as u64;
    match region_from(t, cr3, page, 0) {
        None => (t, s, false),
        Some(i) => {
            let r = t[i]->0;
            let file_offset = r.offset + (page - r.start);
            if !admits(r, error) || (r.backing matches Some(b) && file_offset >= b.size()) {
                (t, s, false)
            } else {
                match s.frames.take() {
                    (_, None) => (t, s, false),
                    (frames, Some(p)) => {
                        let (backing, contents) = page_contents(r.backing, d, layout, file_offset);
                        let t1 = t.update(i, Some(Region { backing, ..r }));
                        match contents {
                            Err(_) => (t1, Mem { ram: s.ram, frames: frames.release(p) }, false),
                            Ok(bytes) => {
                                let filled = Mem { ram: with_bytes(s.ram, p as int, bytes), frames };
                                let (s1, ok) = tried(filled, cr3, page, p, page_flags(r.prot, nx));
                                if ok {
                                    (t1, s1, true)
                                } else {
                                    (t1, Mem { ram: s1.ram, frames: s1.frames.release(p) }, false)
                                }
                            },
                        }
                    },
                }
            }
        },
    }
}

fn zero_page() -> (r: Vec<u8>)
    ensures
        r@ == Seq::new(4096, |i: int| 0u8),
{
    let mut page: Vec<u8> = Vec::new();
    for i in 0..4096usize
        invariant
            page@ == Seq::new(i as nat, |k: int| 0u8),
    {
        page.push(0);
        assert(page@ =~= Seq::new((i + 1) as nat, |k: int| 0u8));
    }
    page
}

/// Handles a fault at `addr` in the current address space: gives the page a
/// frame if a region covers it and admits the access. Returns whether the
/// access may be tried again.
pub fn fault(regions: &mut Regions, mem: &mut Memory, fs: &mut Fs, addr: u64, error: u64) -> (r: bool)
    requires
        old(regions).wf(),
        old(mem).wf(),
        old(fs).wf(),
        tables_ok(old(mem).ram@, target(old(mem).cr3)),
        tables_used(old(mem)@, target(old(mem).cr3)),
    ensures
        final(regions).wf(),
        final(mem).wf(),
        final(mem).pmm.ready() == old(mem).pmm.ready(),
        final(mem).pmm.offset() == old(mem).pmm.offset(),
        final(mem).cr3 == old(mem).cr3,
        final(mem).nx == old(mem).nx,
        final(fs).only_read(*old(fs)),
        (final(regions)@, final(mem)@, r) == faulted(
            old(regions)@,
            old(mem)@,
            old(fs).disk@,
            old(fs).layout,
            target(old(mem).cr3),
            old(mem).nx,
            addr,
            error,
        ),
{
    let cr3: u64 = current_cr3(mem);
    let page: u64 = addr - addr % PAGE;
    let ghost t = regions@;
    let ghost s = mem@;
    let i: usize = match regions.find(cr3, page) {
        Some(i) => i,
        None => {
            return false;
        },
    };
    let r = match regions.table[i] {
        Some(r) => r,
        None => {
            return false;
        },
    };
    assert(t[i as int] == Some(r) && r.wf());
    if r.prot == 0 || (error & 2 != 0 && r.prot & 2 == 0) || (error & 16 != 0 && r.prot & 4 == 0) {
        return false;
    }
    let file_offset: u64 = r.offset + (page - r.start);
    if let Some(b) = r.backing {
        if file_offset >= b.len() as u64 {
            return false;
        }
    }
    proof {
        law_allocation(s.frames);
    }
    let phys: u64 = match alloc_frame(&mut mem.pmm) {
        Some(p) => p,
        None => {
            return false;
        },
    };
    let mut buffer: Vec<u8> = zero_page();
    let mut region = r;
    if let Some(b) = r.backing {
        let mut backing = b;
        let n = backing.read_at(fs, file_offset, &mut buffer);
        region.backing = Some(backing);
        regions.table[i] = Some(region);
        if n.is_err() {
            free_frame(&mut mem.pmm, phys);
            proof {
                lemma_backing_ok(t, i as int, region.backing);
            }
            return false;
        }
    }
    proof {
        lemma_backing_ok(t, i as int, region.backing);
        lemma_frame_filled(s, cr3, phys, buffer@);
        if r.backing is None {
            assert(t.update(i as int, Some(region)) =~= t);
        }
    }
    store_bytes(&mut mem.ram, phys, buffer.as_slice());
    let ghost filled = mem@;
    proof {
        assert(path_ok(filled.ram, cr3, page));
        let used = Mem {
            ram: filled.ram,
            frames: Frames { used: s.frames.used.update((phys / FRAME_SIZE) as int, true), hint: s.frames.hint },
        };
        assert(path_used(used, cr3, page));
        assert forall|w: u64| path_used(filled, cr3, w) by {
            assert(path_used(used, cr3, w));
        }
        assert(path_used(filled, cr3, page));
    }
    let bits: u64 = flags(r.prot, mem.nx);
    if !try_map_page_in(mem, cr3, page, phys, bits) {
        free_frame(&mut mem.pmm, phys);
        return false;
    }
    true
}

/// Changing the backing of a region keeps the table in order.
proof fn lemma_backing_ok(t: Table, i: int, backing: Option<FileBacking>)
    requires
        table_ok(t),
        0 <= i < t.len(),
        t[i] is Some,
    ensures
        table_ok(t.update(i, Some(Region { backing, ..t[i]->0 }))),
{
    let u = t.update(i, Some(Region { backing, ..t[i]->0 }));
    assert forall|a: int, b: int| 0 <= a < b < u.len() && u[a] is Some && u[b] is Some implies !(
    #[trigger] u[a]->0).overlaps(#[trigger] u[b]->0) by {
        assert(t[a] is Some && t[b] is Some);
        assert(!(t[a]->0).overlaps(t[b]->0));
    }
}

// ---- What is mapped where ----

/// What is mapped at an address: its protection, whether it is shared, its
/// backing and the place in that.
pub open spec fn mapping_at(t: Table, cr3: u64, a: u64) -> Option<(u64, bool, Option<FileBacking>, int)> {
    match region_from(t, cr3, a, 0) {
        None => None,
        Some(i) => {
            let r = t[i]->0;
            Some((r.prot, r.shared_readonly, r.backing, r.offset + (a - r.start)))
        },
    }
}

/// A region that covers an address is the only one that does.
proof fn lemma_only_region(t: Table, cr3: u64, a: u64, i: int)
    requires
        table_ok(t),
        0 <= i < t.len(),
        t[i] is Some,
        (t[i]->0).covers(cr3, a),
    ensures
        region_from(t, cr3, a, 0) == Some(i),
{
    lemma_region_from(t, cr3, a, 0);
    if let Some(k) = region_from(t, cr3, a, 0) {
        if k < i {
            assert(!(t[k]->0).overlaps(t[i]->0));
        } else if i < k {
            assert(!(t[i]->0).overlaps(t[k]->0));
        }
    } else {
        assert(!(t[i]->0).covers(cr3, a));
    }
}

/// Cutting a region in two changes nothing about what is mapped where.
proof fn lemma_split_same(t: Table, cr3: u64, at: u64, c: u64, a: u64)
    requires
        table_ok(t),
        at % PAGE == 0,
        straddling(t, cr3, at) > 0 ==> free_slots(t) > 0,
    ensures
        mapping_at(split(t, cr3, at), c, a) == mapping_at(t, c, a),
{
    lemma_split_ok(t, cr3, at);
    lemma_first_straddling(t, cr3, at, 0);
    let v = split(t, cr3, at);
    if let Some(i) = first_straddling(t, cr3, at, 0) {
        lemma_straddling(t, cr3, at, i);
        let r = t[i]->0;
        assert(r.wf());
        let left = Region { end: at, ..r };
        let u = t.update(i, Some(left));
        lemma_free_update(t, i, Some(left));
        lemma_first_slot(u, 0);
        if first_slot(u, 0) is None {
            lemma_no_free(u);
        }
        let k = first_slot(u, 0)->0;
        lemma_region_from(t, c, a, 0);
        lemma_region_from(v, c, a, 0);
        if let Some(j) = region_from(t, c, a, 0) {
            if j == i {
                if a < at {
                    lemma_only_region(v, c, a, i);
                } else {
                    lemma_only_region(v, c, a, k);
                }
            } else {
                assert(j != k);
                lemma_only_region(v, c, a, j);
            }
        } else if let Some(j) = region_from(v, c, a, 0) {
            if j == i || j == k {
                assert((t[i]->0).covers(c, a));
            } else {
                assert((t[j]->0).covers(c, a));
            }
        }
    }
}

proof fn lemma_cut_same(t: Table, cr3: u64, start: u64, end: u64, c: u64, a: u64)
    requires
        table_ok(t),
        start < end,
        start % PAGE == 0,
        end % PAGE == 0,
        free_slots(t) >= straddling(t, cr3, start) + straddling(t, cr3, end),
    ensures
        mapping_at(cut(t, cr3, start, end), c, a) == mapping_at(t, c, a),
{
    lemma_split_same(t, cr3, start, c, a);
    lemma_split_ok(t, cr3, start);
    lemma_cut_room(t, cr3, start, end);
    lemma_split_free(t, cr3, start);
    lemma_split_same(split(t, cr3, start), cr3, end, c, a);
}

proof fn lemma_cleared_ok(t: Table, cr3: u64, start: u64, end: u64)
    requires
        table_ok(t),
    ensures
        table_ok(cleared(t, cr3, start, end)),
{
    let u = cleared(t, cr3, start, end);
    assert forall|i: int, j: int| 0 <= i < j < u.len() && u[i] is Some && u[j] is Some implies !(
    #[trigger] u[i]->0).overlaps(#[trigger] u[j]->0) by {
        assert(!(t[i]->0).overlaps(t[j]->0));
    }
}

/// Clearing a range that was cut out takes away what is mapped there and
/// nothing else.
proof fn lemma_cleared_same(t: Table, cr3: u64, start: u64, end: u64, c: u64, a: u64)
    requires
        table_ok(t),
        start < end,
        forall|k: int|
            0 <= k < t.len() && (#[trigger] t[k]) is Some ==> !(t[k]->0).straddles(cr3, start) && !(t[k]->0).straddles(
                cr3,
                end,
            ),
    ensures
        mapping_at(cleared(t, cr3, start, end), c, a) == if c == cr3 && start <= a < end {
            None
        } else {
            mapping_at(t, c, a)
        },
{
    let u = cleared(t, cr3, start, end);
    lemma_cleared_ok(t, cr3, start, end);
    lemma_cleared_gap(t, cr3, start, end);
    lemma_region_from(t, c, a, 0);
    lemma_region_from(u, c, a, 0);
    if c == cr3 && start <= a < end {
        if let Some(k) = region_from(u, c, a, 0) {
            assert((u[k]->0).end <= start || end <= (u[k]->0).start);
        }
    } else if let Some(j) = region_from(t, c, a, 0) {
        assert(u[j] == t[j]);
        lemma_only_region(u, c, a, j);
    } else if let Some(j) = region_from(u, c, a, 0) {
        assert((t[j]->0).covers(c, a));
    }
}

/// After memory has been unmapped, nothing is mapped in that range, and
/// everything else is mapped as before, in this address space and in every
/// other.
pub proof fn law_unmapping(t: Table, s: Mem, cr3: u64, addr: u64, len: u64, c: u64, a: u64)
    requires
        table_ok(t),
        unmapping(t, s, cr3, addr, len).2 is Ok,
    ensures
        table_ok(unmapping(t, s, cr3, addr, len).0),
        mapping_at(unmapping(t, s, cr3, addr, len).0, c, a) == if c == cr3 && addr <= a < range_end(
            addr,
            len,
        )->Ok_0 {
            None
        } else {
            mapping_at(t, c, a)
        },
{
    let end = range_end(addr, len)->Ok_0;
    assert((addr + (len + PAGE - 1) / PAGE as int * PAGE) % PAGE as int == 0);
    lemma_cut(t, cr3, addr, end);
    lemma_cut_same(t, cr3, addr, end, c, a);
    lemma_cleared_same(cut(t, cr3, addr, end), cr3, addr, end, c, a);
    lemma_cleared_ok(cut(t, cr3, addr, end), cr3, addr, end);
}

/// After memory has been mapped, the range that was returned is mapped as
/// asked for, and everything else as before. A range that the caller did not
/// fix was not mapped at all before.
pub proof fn law_mapping(
    t: Table,
    s: Mem,
    cr3: u64,
    addr: u64,
    len: u64,
    prot: u64,
    map_flags: u64,
    backing: Option<FileBacking>,
    offset: u64,
    c: u64,
    a: u64,
)
    requires
        table_ok(t),
        mapping(t, s, cr3, addr, len, prot, map_flags, backing, offset).2 is Ok,
    ensures
        ({
            let (t1, _, r) = mapping(t, s, cr3, addr, len, prot, map_flags, backing, offset);
            let start = r->Ok_0 as u64;
            let inside = c == cr3 && start <= a < range_end(start, len)->Ok_0;
            &&& table_ok(t1)
            &&& map_flags & 0x10 != 0 ==> start == addr
            &&& map_flags & 0x10 == 0 && inside ==> mapping_at(t, c, a) is None
            &&& mapping_at(t1, c, a) == if inside {
                Some((prot, map_flags & 3 == 1, backing, offset + (a - start)))
            } else {
                mapping_at(t, c, a)
            }
        }),
{
    let (t1, _, r) = mapping(t, s, cr3, addr, len, prot, map_flags, backing, offset);
    let fixed = map_flags & 0x10 != 0;
    let start = if fixed {
        addr
    } else {
        top_of(t, cr3)
    };
    let end = range_end(start, len)->Ok_0;
    assert((start + (len + PAGE - 1) / PAGE as int * PAGE) % PAGE as int == 0);
    let region = Region { cr3, start, end, prot, shared_readonly: map_flags & 3 == 1, backing, offset };
    let u = if fixed {
        cleared(cut(t, cr3, start, end), cr3, start, end)
    } else {
        t
    };
    lemma_region_from(t, c, a, 0);
    if fixed {
        lemma_cut(t, cr3, start, end);
        lemma_cut_same(t, cr3, start, end, c, a);
        lemma_cleared_same(cut(t, cr3, start, end), cr3, start, end, c, a);
        lemma_cleared_ok(cut(t, cr3, start, end), cr3, start, end);
        lemma_cleared_gap(cut(t, cr3, start, end), cr3, start, end);
        lemma_free_more(cut(t, cr3, start, end), u);
    } else {
        lemma_top(t, cr3);
    }
    lemma_inserted_ok(u, region);
    lemma_first_slot(u, 0);
    if first_slot(u, 0) is None {
        lemma_no_free(u);
    }
    let k = first_slot(u, 0)->0;
    lemma_region_from(u, c, a, 0);
    lemma_region_from(t1, c, a, 0);
    if c == cr3 && start <= a < end {
        lemma_only_region(t1, c, a, k);
    } else if let Some(j) = region_from(u, c, a, 0) {
        lemma_only_region(t1, c, a, j);
    } else if let Some(j) = region_from(t1, c, a, 0) {
        assert(j != k);
        assert((u[j]->0).covers(c, a));
    }
}

/// After the protection of a range has been changed, what is mapped there has
/// the new protection, and nothing else about any mapping has changed.
pub proof fn law_protecting(
    t: Table,
    s: Mem,
    cr3: u64,
    nx: bool,
    addr: u64,
    len: u64,
    prot: u64,
    c: u64,
    a: u64,
)
    requires
        table_ok(t),
        len > 0,
        protecting(t, s, cr3, nx, addr, len, prot).2 is Ok,
    ensures
        ({
            let t1 = protecting(t, s, cr3, nx, addr, len, prot).0;
            &&& table_ok(t1)
            &&& mapping_at(t1, c, a) == match mapping_at(t, c, a) {
                Some((_, shared, backing, place)) if c == cr3 && addr <= a < range_end(addr, len)->Ok_0 => Some(
                    (prot, shared, backing, place),
                ),
                other => other,
            }
        }),
{
    let end = range_end(addr, len)->Ok_0;
    assert((addr + (len + PAGE - 1) / PAGE as int * PAGE) % PAGE as int == 0);
    lemma_cut(t, cr3, addr, end);
    lemma_cut_same(t, cr3, addr, end, c, a);
    let u = cut(t, cr3, addr, end);
    let v = reprotected(u, cr3, addr, end, prot);
    lemma_reprotected_ok(u, cr3, addr, end, prot);
    lemma_region_from(u, c, a, 0);
    lemma_region_from(v, c, a, 0);
    if let Some(j) = region_from(u, c, a, 0) {
        lemma_only_region(v, c, a, j);
        assert(!(u[j]->0).straddles(cr3, addr) && !(u[j]->0).straddles(cr3, end));
        assert((u[j]->0).wf());
    } else if let Some(j) = region_from(v, c, a, 0) {
        assert((u[j]->0).covers(c, a));
    }
}

/// Tearing down an address space forgets its mappings and no others.
pub proof fn law_without_space(t: Table, cr3: u64, c: u64, a: u64)
    requires
        table_ok(t),
    ensures
        table_ok(without_space(t, cr3)),
        mapping_at(without_space(t, cr3), c, a) == if c == cr3 {
            None
        } else {
            mapping_at(t, c, a)
        },
{
    let u = without_space(t, cr3);
    assert forall|i: int, j: int| 0 <= i < j < u.len() && u[i] is Some && u[j] is Some implies !(
    #[trigger] u[i]->0).overlaps(#[trigger] u[j]->0) by {
        assert(!(t[i]->0).overlaps(t[j]->0));
    }
    lemma_region_from(t, c, a, 0);
    lemma_region_from(u, c, a, 0);
    if let Some(j) = region_from(u, c, a, 0) {
        lemma_only_region(t, c, a, j);
    } else if let Some(j) = region_from(t, c, a, 0) {
        if c != cr3 {
            assert((u[j]->0).covers(c, a));
        }
    }
}

} // verus!
