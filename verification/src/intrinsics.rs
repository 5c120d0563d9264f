//! The memory routines that compilers and C programs rely on, over one run of
//! memory in which addresses are positions.
use vstd::prelude::*;

verus! {

/// Memory after `n` bytes have been moved from `src` to `dest`, wherever the
/// two lie.
pub open spec fn moved(mem: Seq<u8>, dest: int, src: int, n: int) -> Seq<u8> {
    Seq::new(
        mem.len(),
        |i: int|
            if dest <= i < dest + n {
                mem[src + (i - dest)]
            } else {
                mem[i]
            },
    )
}

/// Copies `n` bytes from `src` to `dest`. The two may overlap only if `dest`
/// comes first.
pub fn memcpy(mem: &mut Vec<u8>, dest: usize, src: usize, n: usize) -> (r: usize)
    requires
        dest + n <= old(mem)@.len(),
        src + n <= old(mem)@.len(),
        dest <= src || src + n <= dest,
    ensures
        final(mem)@ == moved(old(mem)@, dest as int, src as int, n as int),
        r == dest,
{
    let ghost before = mem@;
    assert(mem.len() == before.len());
    for i in 0..n
        invariant
            mem@.len() == before.len() <= usize::MAX,
            dest + n <= before.len(),
            src + n <= before.len(),
            dest <= src || src + n <= dest,
            forall|k: int|
                0 <= k < before.len() ==> #[trigger] mem@[k] == if dest <= k < dest + i {
                    before[src + (k - dest)]
                } else {
                    before[k]
                },
    {
        mem[dest + i] = mem[src + i];
    }
    assert(mem@ =~= moved(before, dest as int, src as int, n as int));
    dest
}

/// Fills `n` bytes from `dest` on with the low byte of `c`.
pub fn memset(mem: &mut Vec<u8>, dest: usize, c: u32, n: usize) -> (r: usize)
    requires
        dest + n <= old(mem)@.len(),
    ensures
        final(mem)@ == Seq::new(
            old(mem)@.len(),
            |i: int|
                if dest <= i < dest + n {
                    (c % 256) as u8
                } else {
                    old(mem)@[i]
                },
        ),
        r == dest,
{
    let ghost before = mem@;
    let byte: u8 = (c % 256) as u8;
    assert(mem.len() == before.len());
    for i in 0..n
        invariant
            mem@.len() == before.len() <= usize::MAX,
            dest + n <= before.len(),
            forall|k: int|
                0 <= k < before.len() ==> #[trigger] mem@[k] == if dest <= k < dest + i {
                    byte
                } else {
                    before[k]
                },
    {
        mem[dest + i] = byte;
    }
    assert(mem@ =~= Seq::new(
        before.len(),
        |i: int|
            if dest <= i < dest + n {
                byte
            } else {
                before[i]
            },
    ));
    dest
}

/// Moves `n` bytes from `src` to `dest`, which may overlap in any way.
pub fn memmove(mem: &mut Vec<u8>, dest: usize, src: usize, n: usize) -> (r: usize)
    requires
        dest + n <= old(mem)@.len(),
        src + n <= old(mem)@.len(),
    ensures
        final(mem)@ == moved(old(mem)@, dest as int, src as int, n as int),
        r == dest,
{
    if dest < src {
        return memcpy(mem, dest, src, n);
    }
    let ghost before = mem@;
    let mut i: usize = n;
    assert(mem.len() == before.len());
    while i != 0
        invariant
            mem@.len() == before.len() <= usize::MAX,
            i <= n,
            dest + n <= before.len(),
            src + n <= before.len(),
            src <= dest,
            forall|k: int|
                0 <= k < before.len() ==> #[trigger] mem@[k] == if dest + i <= k < dest + n {
                    before[src + (k - dest)]
                } else {
                    before[k]
                },
        decreases i,
    {
        i -= 1;
        mem[dest + i] = mem[src + i];
    }
    assert(mem@ =~= moved(before, dest as int, src as int, n as int));
    dest
}

/// How two runs of `n` bytes differ: the difference of the first two bytes
/// that are not the same, or 0.
pub open spec fn difference(mem: Seq<u8>, a: int, b: int, n: int) -> int
    decreases n,
{
    if n <= 0 {
        0
    } else if mem[a] != mem[b] {
        mem[a] - mem[b]
    } else {
        difference(mem, a + 1, b + 1, n - 1)
    }
}

fn byte_gap(x: u8, y: u8) -> (r: i32)
    ensures
        r == x - y,
{
    x as i32 - y as i32
}

/// Looks for the first difference between two runs of bytes.
fn compare(mem: &Vec<u8>, a: usize, b: usize, n: usize) -> (r: i32)
    requires
        a + n <= mem@.len(),
        b + n <= mem@.len(),
    ensures
        r == difference(mem@, a as int, b as int, n as int),
{
    assert(mem.len() == mem@.len());
    for i in 0..n
        invariant
            a + n <= mem@.len() <= usize::MAX,
            b + n <= mem@.len(),
            difference(mem@, a as int, b as int, n as int) == difference(mem@, a + i, b + i, n - i),
    {
        let x: u8 = mem[a + i];
        let y: u8 = mem[b + i];
        if x != y {
            return byte_gap(x, y);
        }
    }
    0
}

/// Tells how two runs of bytes differ, if they do.
pub open spec fn differs(mem: Seq<u8>, a: usize, b: usize, n: usize) -> int {
    difference(mem, a as int, b as int, n as int)
}

pub fn memcmp(mem: &Vec<u8>, a: usize, b: usize, n: usize) -> (r: i32)
    requires
        a + n <= mem@.len(),
        b + n <= mem@.len(),
    ensures
        r == differs(mem@, a, b, n),
{
    compare(mem, a, b, n)
}

pub fn bcmp(mem: &Vec<u8>, a: usize, b: usize, n: usize) -> (r: i32)
    requires
        a + n <= mem@.len(),
        b + n <= mem@.len(),
    ensures
        r == differs(mem@, a, b, n),
{
    memcmp(mem, a, b, n)
}

/// How many bytes stand before the first zero at or after `s`.
pub fn strlen(mem: &Vec<u8>, s: usize) -> (r: usize)
    requires
        exists|z: int| s <= z < mem@.len() && #[trigger] mem@[z] == 0,
    ensures
        s + r < mem@.len(),
        mem@[s + r] == 0,
        forall|k: int| s <= k < s + r ==> #[trigger] mem@[k] != 0,
{
    let ghost z = choose|z: int| s <= z < mem@.len() && #[trigger] mem@[z] == 0;
    let mut n: usize = 0;
    assert(mem.len() == mem@.len());
    while mem[s + n] != 0
        invariant
            mem@.len() <= usize::MAX,
            s + n <= z < mem@.len(),
            mem@[z] == 0,
            forall|k: int| s <= k < s + n ==> #[trigger] mem@[k] != 0,
        decreases z - (s + n),
    {
        n += 1;
    }
    n
}

/// Two runs of bytes are the same exactly when they do not differ.
pub proof fn law_no_difference(mem: Seq<u8>, a: int, b: int, n: int)
    requires
        0 <= a,
        0 <= b,
        0 <= n,
        a + n <= mem.len(),
        b + n <= mem.len(),
    ensures
        difference(mem, a, b, n) == 0 <==> mem.subrange(a, a + n) == mem.subrange(b, b + n),
    decreases n,
{
    if n > 0 {
        let u = mem.subrange(a, a + n);
        let v = mem.subrange(b, b + n);
        assert(u[0] == mem[a] && v[0] == mem[b]);
        if mem[a] == mem[b] {
            law_no_difference(mem, a + 1, b + 1, n - 1);
            let u1 = mem.subrange(a + 1, a + n);
            let v1 = mem.subrange(b + 1, b + n);
            if u1 == v1 {
                assert forall|i: int| 0 <= i < n implies u[i] == v[i] by {
                    if i > 0 {
                        assert(u1[i - 1] == u[i] && v1[i - 1] == v[i]);
                    }
                }
                assert(u =~= v);
            }
            if u == v {
                assert forall|i: int| 0 <= i < n - 1 implies u1[i] == v1[i] by {
                    assert(u1[i] == u[i + 1] && v1[i] == v[i + 1]);
                }
                assert(u1 =~= v1);
            }
        }
    } else {
        assert(mem.subrange(a, a + n) =~= mem.subrange(b, b + n));
    }
}

} // verus!
