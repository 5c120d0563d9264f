//! Physical frame allocator: a bitmap over every 4 KiB frame of physical
//! memory, one bit per frame (0 = free, 1 = used).
use crate::limine::{MemmapEntry, MemmapKind};
use vstd::prelude::*;

verus! {

pub const FRAME_SIZE: u64 = 4096;

/// One frame's state for each frame that is tracked, `true` for used, with
/// the frame at which the next search begins.
pub ghost struct Frames {
    pub used: Seq<bool>,
    pub hint: int,
}

/// How many of the first `n` frames are free.
pub open spec fn free_among(used: Seq<bool>, n: int) -> nat
    decreases n,
{
    if n <= 0 {
        0
    } else {
        free_among(used, n - 1) + if used[n - 1] {
            0nat
        } else {
            1nat
        }
    }
}

/// The first free frame in `from..to`.
pub open spec fn first_free(used: Seq<bool>, from: int, to: int) -> Option<int>
    decreases to - from,
{
    if from >= to {
        None
    } else if !used[from] {
        Some(from)
    } else {
        first_free(used, from + 1, to)
    }
}

impl Frames {
    pub open spec fn free(self) -> nat {
        free_among(self.used, self.used.len() as int)
    }

    /// The frame that an allocation takes: the first free one at or after the
    /// hint, else the first free one before it.
    pub open spec fn next_frame(self) -> Option<int> {
        match first_free(self.used, self.hint, self.used.len() as int) {
            Some(f) => Some(f),
            None => first_free(self.used, 0, self.hint),
        }
    }

    /// What an allocation returns and leaves behind.
    pub open spec fn take(self) -> (Frames, Option<u64>) {
        match self.next_frame() {
            Some(f) => (
                Frames { used: self.used.update(f, true), hint: f + 1 },
                Some((f * FRAME_SIZE) as u64),
            ),
            None => (self, None),
        }
    }

    pub open spec fn release(self, phys: u64) -> Frames {
        let f = (phys / FRAME_SIZE) as int;
        Frames { used: self.used.update(f, false), ..self }
    }
}

pub open spec fn bit(b: u8, k: u64) -> bool {
    (b >> k) & 1 != 0
}

/// The states that a bitmap records for its first `count` frames.
pub open spec fn states(bits: Seq<u8>, count: nat) -> Seq<bool> {
    Seq::new(count, |f: int| bit(bits[f / 8], (f % 8) as u64))
}

pub struct Bitmap {
    bits: Vec<u8>,
    frame_count: u64,
    free_count: u64,
    next_hint: u64,
}

/// Setting or clearing one bit of a byte leaves its seven neighbours alone.
proof fn lemma_bits(b: u8, k: u64, j: u64)
    by (bit_vector)
    requires
        k < 8,
        j < 8,
    ensures
        bit(b | (1u8 << k), j) == (j == k || bit(b, j)),
        bit(b & !(1u8 << k), j) == (j != k && bit(b, j)),
{
}

proof fn lemma_full_byte(j: u64)
    by (bit_vector)
    requires
        j < 8,
    ensures
        bit(0xFFu8, j),
{
}

proof fn lemma_free_among_update(used: Seq<bool>, n: int, f: int, v: bool)
    requires
        0 <= f < used.len(),
        0 <= n <= used.len(),
    ensures
        free_among(used.update(f, v), n) == free_among(used, n) + if f < n && used[f] && !v {
            1int
        } else if f < n && !used[f] && v {
            -1int
        } else {
            0int
        },
    decreases n,
{
    if n > 0 {
        lemma_free_among_update(used, n - 1, f, v);
    }
}

proof fn lemma_free_among_bound(used: Seq<bool>, n: int)
    requires
        0 <= n <= used.len(),
    ensures
        free_among(used, n) <= n,
        free_among(used, n) > 0 <==> exists|f: int| 0 <= f < n && !used[f],
    decreases n,
{
    if n > 0 {
        lemma_free_among_bound(used, n - 1);
        if !used[n - 1] {
        } else if free_among(used, n) > 0 {
            let f = choose|f: int| 0 <= f < n - 1 && !used[f];
            assert(0 <= f < n && !used[f]);
        }
    }
}

proof fn lemma_all_used(used: Seq<bool>, n: int)
    requires
        0 <= n <= used.len(),
        forall|f: int| 0 <= f < n ==> used[f],
    ensures
        free_among(used, n) == 0,
    decreases n,
{
    if n > 0 {
        lemma_all_used(used, n - 1);
    }
}

/// What the first free frame of a range is.
pub proof fn lemma_first_free(used: Seq<bool>, from: int, to: int)
    requires
        0 <= from,
        to <= used.len(),
    ensures
        match first_free(used, from, to) {
            Some(f) => from <= f < to && !used[f] && forall|g: int| from <= g < f ==> used[g],
            None => forall|g: int| from <= g < to ==> used[g],
        },
    decreases to - from,
{
    if from < to && used[from] {
        lemma_first_free(used, from + 1, to);
    }
}

impl Bitmap {
    spec fn used(self, f: int) -> bool {
        bit(self.bits@[f / 8], (f % 8) as u64)
    }

    pub closed spec fn view(self) -> Frames {
        Frames { used: states(self.bits@, self.frame_count as nat), hint: self.next_hint as int }
    }

    pub closed spec fn wf(self) -> bool {
        &&& self.bits.len() * 8 >= self.frame_count
        &&& self.frame_count <= 0x10_0000_0000_0000
        &&& self.next_hint <= self.frame_count
        &&& self.free_count == self@.free()
    }

    fn get(&self, frame: u64) -> (r: bool)
        requires
            frame < self.frame_count,
            self.bits.len() * 8 >= self.frame_count,
        ensures
            r == self.used(frame as int),
    {
        let byte = self.bits[(frame / 8) as usize];
        (byte >> (frame % 8)) & 1 != 0
    }

    fn set(&mut self, frame: u64, used: bool)
        requires
            frame < old(self).frame_count,
            old(self).bits.len() * 8 >= old(self).frame_count,
        ensures
            final(self).bits@.len() == old(self).bits@.len(),
            final(self).frame_count == old(self).frame_count,
            final(self).free_count == old(self).free_count,
            final(self).next_hint == old(self).next_hint,
            final(self)@.used == old(self)@.used.update(frame as int, used),
    {
        let at: usize = (frame / 8) as usize;
        let byte = self.bits[at];
        let k: u64 = frame % 8;
        let new: u8 = if used {
            byte | (1u8 << k)
        } else {
            byte & !(1u8 << k)
        };
        self.bits[at] = new;
        proof {
            assert forall|f: int| 0 <= f < self.frame_count implies self.used(f) == (if f == frame {
                used
            } else {
                old(self).used(f)
            }) by {
                let j = (f % 8) as u64;
                assert(j < 8);
                assert(f == 8 * (f / 8) + f % 8);
                if f / 8 == at {
                    lemma_bits(byte, k, j);
                }
            }
            assert(self@.used =~= old(self)@.used.update(frame as int, used)) by {
                assert(forall|f: int| 0 <= f < self.frame_count ==> #[trigger] self@.used[f] == self.used(f));
                assert(forall|f: int|
                    0 <= f < self.frame_count ==> #[trigger] old(self)@.used[f] == old(self).used(f));
            }
        }
    }

    fn take_frame(&mut self) -> (r: Option<u64>)
        requires
            old(self).wf(),
        ensures
            final(self).wf(),
            (final(self)@, r) == old(self)@.take(),
    {
        let ghost s = self@;
        let count: u64 = self.frame_count;
        let start: u64 = self.next_hint;
        let mut frame: u64 = start;
        while frame < count && self.get(frame)
            invariant
                start <= frame <= count,
                self.frame_count == count,
                self.wf(),
                *self == *old(self),
                self@ == s,
                s.used.len() == count,
                first_free(s.used, start as int, count as int) == first_free(
                    s.used,
                    frame as int,
                    count as int,
                ),
            decreases count - frame,
        {
            frame += 1;
        }
        if frame >= count {
            frame = 0;
            while frame < start && self.get(frame)
                invariant
                    frame <= start <= count,
                    self.frame_count == count,
                    self.wf(),
                    *self == *old(self),
                    self@ == s,
                    s.used.len() == count,
                    first_free(s.used, 0, start as int) == first_free(s.used, frame as int, start as int),
                decreases start - frame,
            {
                frame += 1;
            }
            if frame >= start {
                return None;
            }
        }
        assert(!s.used[frame as int]);
        assert(s.next_frame() == Some(frame as int));
        self.set(frame, true);
        proof {
            lemma_free_among_update(s.used, count as int, frame as int, true);
            lemma_free_among_bound(s.used, count as int);
        }
        self.free_count -= 1;
        self.next_hint = frame + 1;
        Some(frame * FRAME_SIZE)
    }

    fn release_frame(&mut self, phys: u64)
        requires
            old(self).wf(),
            phys / FRAME_SIZE < old(self)@.used.len(),
        ensures
            final(self).wf(),
            final(self)@ == old(self)@.release(phys),
    {
        let ghost s = self@;
        let frame: u64 = phys / FRAME_SIZE;
        proof {
            lemma_free_among_update(s.used, s.used.len() as int, frame as int, false);
            lemma_free_among_bound(s.used.update(frame as int, false), s.used.len() as int);
        }
        if self.get(frame) {
            self.set(frame, false);
            self.free_count += 1;
        } else {
            assert(s.used.update(frame as int, false) =~= s.used);
        }
    }
}

pub struct Pmm {
    bitmap: Option<Bitmap>,
    hhdm_offset: u64,
}

/// Whether frame `f` lies wholly inside the region, once its bounds are
/// rounded down to frames.
pub open spec fn covers(e: MemmapEntry, f: int) -> bool {
    e.kind == MemmapKind::Usable && e.base / FRAME_SIZE <= f < (e.base + e.length) / (FRAME_SIZE as int)
}

/// One past the highest address in any of the first `n` usable regions.
pub open spec fn highest_usable(entries: Seq<MemmapEntry>, n: int) -> int
    decreases n,
{
    if n <= 0 {
        0
    } else {
        let below = highest_usable(entries, n - 1);
        let e = entries[n - 1];
        if e.kind == MemmapKind::Usable && e.base + e.length > below {
            e.base + e.length
        } else {
            below
        }
    }
}

/// The largest of the first `n` usable regions, the earliest of equals, as
/// its base and length.
pub open spec fn largest_usable(entries: Seq<MemmapEntry>, n: int) -> (u64, u64)
    decreases n,
{
    if n <= 0 {
        (0, 0)
    } else {
        let best = largest_usable(entries, n - 1);
        let e = entries[n - 1];
        if e.kind == MemmapKind::Usable && e.length > best.1 {
            (e.base, e.length)
        } else {
            best
        }
    }
}

pub open spec fn div_ceil(a: int, b: int) -> int {
    (a + b - 1) / b
}

/// How many frames are tracked for a memory map.
pub open spec fn frames_tracked(entries: Seq<MemmapEntry>) -> int {
    div_ceil(highest_usable(entries, entries.len() as int), FRAME_SIZE as int)
}

/// How many bytes the bitmap for a memory map occupies.
pub open spec fn bitmap_bytes(entries: Seq<MemmapEntry>) -> int {
    div_ceil(frames_tracked(entries), 8)
}

/// Whether frame `f` is one of those that hold the bitmap, which lies at the
/// start of the largest usable region.
pub open spec fn holds_bitmap(entries: Seq<MemmapEntry>, f: int) -> bool {
    let first = largest_usable(entries, entries.len() as int).0 / FRAME_SIZE;
    first <= f < first + div_ceil(bitmap_bytes(entries), FRAME_SIZE as int)
}

/// What the bootloader promises of a memory map: regions do not wrap round
/// the address space, no frame is in two usable regions, and there is a
/// usable region with room for the bitmap.
pub open spec fn valid_map(entries: Seq<MemmapEntry>) -> bool {
    &&& forall|i: int|
        0 <= i < entries.len() ==> (#[trigger] entries[i]).base + entries[i].length <= u64::MAX
    &&& forall|i: int, j: int, f: int|
        0 <= i < j < entries.len() && #[trigger] covers(entries[i], f) ==> !#[trigger] covers(entries[j], f)
    &&& largest_usable(entries, entries.len() as int).1 > 0
    &&& bitmap_bytes(entries) <= largest_usable(entries, entries.len() as int).1
}

/// The frames that are used once the allocator is set up: all those that no
/// usable region covers, and those that hold the bitmap.
pub open spec fn initial_used(entries: Seq<MemmapEntry>) -> Seq<bool> {
    Seq::new(
        frames_tracked(entries) as nat,
        |f: int|
            holds_bitmap(entries, f) || !exists|i: int|
                0 <= i < entries.len() && #[trigger] covers(entries[i], f),
    )
}

proof fn lemma_highest(entries: Seq<MemmapEntry>, n: int)
    requires
        0 <= n <= entries.len(),
        forall|i: int|
            0 <= i < entries.len() ==> (#[trigger] entries[i]).base + entries[i].length <= u64::MAX,
    ensures
        0 <= highest_usable(entries, n) <= u64::MAX,
        forall|i: int|
            0 <= i < n && (#[trigger] entries[i]).kind == MemmapKind::Usable ==> entries[i].base
                + entries[i].length <= highest_usable(entries, n),
        largest_usable(entries, n).1 > 0 ==> largest_usable(entries, n).0 + largest_usable(
            entries,
            n,
        ).1 <= highest_usable(entries, n),
    decreases n,
{
    if n > 0 {
        lemma_highest(entries, n - 1);
    }
}

impl Pmm {
    /// Whether the allocator has been set up.
    pub closed spec fn ready(self) -> bool {
        self.bitmap is Some
    }

    /// The state of every tracked frame; none before the allocator is set up.
    pub closed spec fn view(self) -> Frames {
        match self.bitmap {
            Some(b) => b@,
            None => Frames { used: Seq::empty(), hint: 0 },
        }
    }

    pub closed spec fn offset(self) -> u64 {
        self.hhdm_offset
    }

    pub closed spec fn inner_wf(self) -> bool {
        self.bitmap matches Some(b) ==> b.wf()
    }

    pub open spec fn wf(self) -> bool {
        &&& self.inner_wf()
        &&& !self.ready() ==> self@.used.len() == 0
        &&& 0 <= self@.hint <= self@.used.len() <= 0x10_0000_0000_0000
    }

    /// The allocator as it is before the memory map is known.
    pub fn new() -> (r: Pmm)
        ensures
            r.wf(),
            !r.ready(),
            r@ == (Frames { used: Seq::empty(), hint: 0 }),
            r.offset() == 0,
    {
        Pmm { bitmap: None, hhdm_offset: 0 }
    }
}

/// Whether some frame is in both of two regions.
spec fn overlapping(a: MemmapEntry, b: MemmapEntry) -> bool {
    exists|f: int| #[trigger] covers(a, f) && covers(b, f)
}

fn overlap(a: &MemmapEntry, b: &MemmapEntry) -> (r: bool)
    requires
        a.base + a.length <= u64::MAX,
        b.base + b.length <= u64::MAX,
    ensures
        r == overlapping(*a, *b),
{
    let first: u64 = if a.base / FRAME_SIZE > b.base / FRAME_SIZE {
        a.base / FRAME_SIZE
    } else {
        b.base / FRAME_SIZE
    };
    let a_end: u64 = (a.base + a.length) / FRAME_SIZE;
    let b_end: u64 = (b.base + b.length) / FRAME_SIZE;
    let r: bool = a.kind == MemmapKind::Usable && b.kind == MemmapKind::Usable && first < a_end && first < b_end;
    proof {
        if r {
            assert(covers(*a, first as int) && covers(*b, first as int));
        }
    }
    r
}

/// Whether a memory map is one that the allocator can be set up from.
pub fn map_is_valid(entries: &[MemmapEntry]) -> (r: bool)
    ensures
        r == valid_map(entries@),
{
    let n: usize = entries.len();
    let mut highest: u64 = 0;
    let mut best_len: u64 = 0;
    for i in 0..n
        invariant
            n == entries@.len(),
            forall|j: int| 0 <= j < i ==> (#[trigger] entries@[j]).base + entries@[j].length <= u64::MAX,
            highest == highest_usable(entries@, i as int),
            best_len == largest_usable(entries@, i as int).1,
    {
        let e = entries[i];
        if e.length > u64::MAX - e.base {
            assert(entries@[i as int].base + entries@[i as int].length > u64::MAX);
            return false;
        }
        if e.kind == MemmapKind::Usable {
            if e.base + e.length > highest {
                highest = e.base + e.length;
            }
            if e.length > best_len {
                best_len = e.length;
            }
        }
    }
    for i in 0..n
        invariant
            n == entries@.len(),
            forall|j: int| 0 <= j < n ==> (#[trigger] entries@[j]).base + entries@[j].length <= u64::MAX,
            forall|a: int, b: int|
                0 <= a < b < n && a < i ==> !overlapping(#[trigger] entries@[a], #[trigger] entries@[b]),
    {
        for j in i + 1..n
            invariant
                n == entries@.len(),
                i < n,
                forall|j: int| 0 <= j < n ==> (#[trigger] entries@[j]).base + entries@[j].length <= u64::MAX,
                forall|a: int, b: int|
                    0 <= a < b < n && (a < i || a == i && b < j) ==> !overlapping(
                        #[trigger] entries@[a],
                        #[trigger] entries@[b],
                    ),
        {
            if overlap(&entries[i], &entries[j]) {
                proof {
                    let (a, b) = (entries@[i as int], entries@[j as int]);
                    let f = choose|f: int| #[trigger] covers(a, f) && covers(b, f);
                    assert(covers(entries@[i as int], f) && covers(entries@[j as int], f));
                }
                return false;
            }
        }
    }
    proof {
        lemma_highest(entries@, n as int);
        assert forall|i: int, j: int, f: int|
            0 <= i < j < entries@.len() && #[trigger] covers(entries@[i], f) implies !#[trigger] covers(
            entries@[j],
            f,
        ) by {
            assert(!overlapping(entries@[i], entries@[j]));
        }
    }
    let frames: u64 = if highest % FRAME_SIZE == 0 {
        highest / FRAME_SIZE
    } else {
        highest / FRAME_SIZE + 1
    };
    assert(frames == frames_tracked(entries@));
    let bytes: u64 = if frames % 8 == 0 {
        frames / 8
    } else {
        frames / 8 + 1
    };
    assert(bytes == bitmap_bytes(entries@));
    best_len > 0 && bytes <= best_len
}

/// Sets the allocator up from the memory map.
pub fn init(pmm: &mut Pmm, hhdm_offset: u64, entries: &[MemmapEntry])
    requires
        valid_map(entries@),
    ensures
        final(pmm).wf(),
        final(pmm).ready(),
        final(pmm).offset() == hhdm_offset,
        final(pmm)@ == (Frames { used: initial_used(entries@), hint: 0 }),
{
    let n: usize = entries.len();
    let mut highest: u64 = 0;
    let mut best_base: u64 = 0;
    let mut best_len: u64 = 0;
    for i in 0..n
        invariant
            n == entries@.len(),
            forall|i: int|
                0 <= i < entries@.len() ==> (#[trigger] entries@[i]).base + entries@[i].length <= u64::MAX,
            highest == highest_usable(entries@, i as int),
            (best_base, best_len) == largest_usable(entries@, i as int),
    {
        let e = entries[i];
        if e.kind == MemmapKind::Usable {
            let end: u64 = e.base + e.length;
            if end > highest {
                highest = end;
            }
            if e.length > best_len {
                best_base = e.base;
                best_len = e.length;
            }
        }
    }
    proof {
        lemma_highest(entries@, n as int);
    }
    let frame_count: u64 = if highest % FRAME_SIZE == 0 {
        highest / FRAME_SIZE
    } else {
        highest / FRAME_SIZE + 1
    };
    assert(frame_count == frames_tracked(entries@));
    let bytes: u64 = if frame_count % 8 == 0 {
        frame_count / 8
    } else {
        frame_count / 8 + 1
    };
    assert(bytes == bitmap_bytes(entries@));

    // Every frame starts out used: whatever no usable region covers stays so.
    let mut bits: Vec<u8> = Vec::new();
    let mut k: u64 = 0;
    while k < bytes
        invariant
            k <= bytes,
            bits@.len() == k,
            forall|j: int| 0 <= j < k ==> bits@[j] == 0xFF,
        decreases bytes - k,
    {
        bits.push(0xFF);
        k += 1;
    }
    let mut bitmap = Bitmap { bits, frame_count, free_count: 0, next_hint: 0 };
    proof {
        assert forall|f: int| 0 <= f < frame_count implies #[trigger] bitmap@.used[f] by {
            assert(bitmap.bits@[f / 8] == 0xFF);
            lemma_full_byte((f % 8) as u64);
        }
        lemma_all_used(bitmap@.used, frame_count as int);
    }
    for i in 0..n
        invariant
            n == entries@.len(),
            valid_map(entries@),
            highest == highest_usable(entries@, n as int),
            frame_count == frames_tracked(entries@),
            frame_count <= 0x10_0000_0000_0000,
            forall|i: int|
                0 <= i < n && (#[trigger] entries@[i]).kind == MemmapKind::Usable ==> entries@[i].base
                    + entries@[i].length <= highest,
            bitmap.frame_count == frame_count,
            bitmap.wf(),
            bitmap.next_hint == 0,
            forall|f: int|
                0 <= f < frame_count ==> (#[trigger] bitmap@.used[f] <==> !exists|j: int|
                    0 <= j < i && #[trigger] covers(entries@[j], f)),
    {
        let e = entries[i];
        let ghost before = bitmap@.used;
        if e.kind == MemmapKind::Usable {
            let first: u64 = e.base / FRAME_SIZE;
            let last: u64 = (e.base + e.length) / FRAME_SIZE;
            assert(entries@[i as int].base + entries@[i as int].length <= highest);
            assert(last <= frame_count);
            assert forall|f: int| first <= f < last implies before[f] by {
                assert(covers(entries@[i as int], f));
            }
            for frame in first..last
                invariant
                    first <= last,
                    last <= frame_count,
                    first == e.base / FRAME_SIZE,
                    last == (e.base + e.length) / FRAME_SIZE as int,
                    e.kind == MemmapKind::Usable,
                    bitmap.frame_count == frame_count,
                    bitmap.wf(),
                    bitmap.next_hint == 0,
                    before.len() == frame_count,
                    forall|f: int| first <= f < last ==> before[f],
                    forall|f: int|
                        0 <= f < frame_count ==> (#[trigger] bitmap@.used[f] <==> before[f] && !(first <= f
                            < frame)),
            {
                let ghost was = bitmap@.used;
                bitmap.set(frame, false);
                proof {
                    lemma_free_among_update(was, frame_count as int, frame as int, false);
                    lemma_free_among_bound(was, frame_count as int);
                    lemma_free_among_bound(bitmap@.used, frame_count as int);
                    assert(was[frame as int]);
                }
                bitmap.free_count += 1;
            }
        }
        proof {
            assert forall|f: int| 0 <= f < frame_count implies (#[trigger] bitmap@.used[f]
                <==> !exists|j: int| 0 <= j < i + 1 && #[trigger] covers(entries@[j], f)) by {
                assert(bitmap@.used[f] <==> before[f] && !covers(entries@[i as int], f));
                if before[f] && !covers(entries@[i as int], f) {
                    assert(!exists|j: int| 0 <= j < i + 1 && #[trigger] covers(entries@[j], f));
                } else if covers(entries@[i as int], f) {
                } else {
                    let j = choose|j: int| 0 <= j < i && #[trigger] covers(entries@[j], f);
                    assert(0 <= j < i + 1 && covers(entries@[j], f));
                }
            }
        }
    }

    // Reserve the frames that the bitmap itself occupies.
    let first: u64 = best_base / FRAME_SIZE;
    let held: u64 = if bytes % FRAME_SIZE == 0 {
        bytes / FRAME_SIZE
    } else {
        bytes / FRAME_SIZE + 1
    };
    assert(held == div_ceil(bytes as int, FRAME_SIZE as int));
    assert(best_base + bytes <= highest);
    assert(first + held <= frame_count);
    let ghost before = bitmap@.used;
    for frame in first..first + held
        invariant
            first + held <= frame_count,
            frame_count <= 0x10_0000_0000_0000,
            bitmap.frame_count == frame_count,
            bitmap.wf(),
            bitmap.next_hint == 0,
            before.len() == frame_count,
            forall|f: int|
                0 <= f < frame_count ==> (#[trigger] bitmap@.used[f] <==> before[f] || first <= f < frame),
    {
        let ghost was = bitmap@.used;
        if !bitmap.get(frame) {
            bitmap.set(frame, true);
            proof {
                lemma_free_among_update(was, frame_count as int, frame as int, true);
            }
            bitmap.free_count -= 1;
        }
    }
    assert(bitmap@.used =~= initial_used(entries@));
    pmm.hhdm_offset = hhdm_offset;
    pmm.bitmap = Some(bitmap);
}

/// Allocates one 4 KiB physical frame, returning its physical address, or
/// `None` if every frame is used.
pub fn alloc_frame(pmm: &mut Pmm) -> (r: Option<u64>)
    requires
        old(pmm).wf(),
    ensures
        final(pmm).wf(),
        final(pmm).ready() == old(pmm).ready(),
        final(pmm).offset() == old(pmm).offset(),
        (final(pmm)@, r) == old(pmm)@.take(),
{
    match &mut pmm.bitmap {
        None => None,
        Some(bitmap) => bitmap.take_frame(),
    }
}

/// Gives a frame back. Freeing a frame that is already free changes nothing,
/// and nothing happens before the allocator is set up.
pub fn free_frame(pmm: &mut Pmm, phys: u64)
    requires
        old(pmm).wf(),
        old(pmm).ready() ==> phys / FRAME_SIZE < old(pmm)@.used.len(),
    ensures
        final(pmm).wf(),
        final(pmm).ready() == old(pmm).ready(),
        final(pmm).offset() == old(pmm).offset(),
        old(pmm).ready() ==> final(pmm)@ == old(pmm)@.release(phys),
        !old(pmm).ready() ==> final(pmm)@ == old(pmm)@,
{
    match &mut pmm.bitmap {
        None => {},
        Some(bitmap) => {
            bitmap.release_frame(phys);
        },
    }
}

/// Whether what the allocator keeps agrees with itself.
pub fn in_order(pmm: &Pmm) -> (r: bool)
    ensures
        r == pmm.wf(),
{
    match &pmm.bitmap {
        None => true,
        Some(b) => {
            let n: u64 = b.frame_count;
            if n > 0x10_0000_0000_0000 || b.next_hint > n || (b.bits.len() as u128) * 8 < n as u128 {
                return false;
            }
            let mut free: u64 = 0;
            for f in 0..n
                invariant
                    n == b.frame_count,
                    b.bits@.len() * 8 >= n,
                    free == free_among(b@.used, f as int),
                    free <= f,
            {
                if !b.get(f) {
                    free += 1;
                }
            }
            free == b.free_count
        },
    }
}

/// Whether the allocator has been set up.
pub fn is_ready(pmm: &Pmm) -> (r: bool)
    ensures
        r == pmm.ready(),
{
    pmm.bitmap.is_some()
}

/// Whether the allocator may hand out frame `f`: it tracks it, and has it
/// marked free.
pub(crate) fn frame_free(pmm: &Pmm, f: u64) -> (r: bool)
    requires
        pmm.wf(),
    ensures
        r == (f < pmm@.used.len() && !pmm@.used[f as int]),
{
    match &pmm.bitmap {
        Some(b) => f < b.frame_count && !b.get(f),
        None => false,
    }
}

/// How many frames are tracked, and how many of them are free.
pub fn stats(pmm: &Pmm) -> (r: (u64, u64))
    requires
        pmm.wf(),
    ensures
        r.0 == pmm@.used.len(),
        r.1 == pmm@.free(),
{
    match &pmm.bitmap {
        Some(b) => (b.frame_count, b.free_count),
        None => (0, 0),
    }
}

pub fn hhdm_offset(pmm: &Pmm) -> (r: u64)
    ensures
        r == pmm.offset(),
{
    pmm.hhdm_offset
}

/// An allocation succeeds exactly when some frame is free. It hands out a
/// frame-aligned address of a frame that was free, marks that frame and no
/// other, and the free count falls by one.
pub proof fn law_allocation(s: Frames)
    requires
        0 <= s.hint <= s.used.len() <= 0x10_0000_0000_0000,
    ensures
        s.take().1 is Some <==> s.free() > 0,
        s.take().1 is None ==> s.take().0 == s,
        s.take().1 matches Some(p) ==> {
            let f = (p / FRAME_SIZE) as int;
            &&& p % FRAME_SIZE == 0
            &&& 0 <= f < s.used.len()
            &&& !s.used[f]
            &&& s.take().0.used == s.used.update(f, true)
            &&& s.take().0.free() + 1 == s.free()
            &&& 0 <= s.take().0.hint <= s.used.len()
        },
{
    let n = s.used.len() as int;
    lemma_first_free(s.used, s.hint, n);
    lemma_first_free(s.used, 0, s.hint);
    lemma_free_among_bound(s.used, n);
    if let Some(f) = s.next_frame() {
        lemma_free_among_update(s.used, n, f, true);
        assert(0 <= f < n && !s.used[f]);
        assert((f * FRAME_SIZE) as u64 == f * FRAME_SIZE);
        assert((f * FRAME_SIZE) as u64 / FRAME_SIZE == f);
    }
}

/// Freeing the frame that was just allocated makes every frame's state, and
/// so the free count, what it was before.
pub proof fn law_free_undoes_alloc(s: Frames)
    requires
        0 <= s.hint <= s.used.len() <= 0x10_0000_0000_0000,
        s.take().1 is Some,
    ensures
        s.take().0.release(s.take().1->0).used == s.used,
        s.take().0.release(s.take().1->0).free() == s.free(),
{
    law_allocation(s);
    assert(s.take().0.release(s.take().1->0).used =~= s.used);
}

/// Two allocations with nothing freed in between never hand out the same frame.
pub proof fn law_allocations_differ(s: Frames)
    requires
        0 <= s.hint <= s.used.len() <= 0x10_0000_0000_0000,
        s.take().1 is Some,
        s.take().0.take().1 is Some,
    ensures
        s.take().1 != s.take().0.take().1,
{
    law_allocation(s);
    law_allocation(s.take().0);
}

/// A frame that no usable region covers, or that holds the bitmap, is never
/// handed out by the allocator that was set up from that memory map.
pub proof fn law_reserved_frames_stay_used(entries: Seq<MemmapEntry>, f: int)
    requires
        valid_map(entries),
        0 <= f < frames_tracked(entries),
        holds_bitmap(entries, f) || forall|i: int| 0 <= i < entries.len() ==> !#[trigger] covers(entries[i], f),
    ensures
        initial_used(entries)[f],
        (Frames { used: initial_used(entries), hint: 0 }).next_frame() != Some(f),
{
    let used = initial_used(entries);
    lemma_first_free(used, 0, used.len() as int);
    lemma_first_free(used, 0, 0);
}

} // verus!
