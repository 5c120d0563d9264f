//! The SHA-256 hash of a message, in hexadecimal.
use crate::text::hex_digit;
use vstd::prelude::*;

verus! {

/// The registers of the hash.
#[derive(Clone, Copy)]
pub struct Registers {
    pub a: u32,
    pub b: u32,
    pub c: u32,
    pub d: u32,
    pub e: u32,
    pub f: u32,
    pub g: u32,
    pub h: u32,
}

/// One constant for each round: of the cube roots of the first primes, the
/// fractional parts.
pub open spec fn round_constants() -> Seq<u32> {
    seq![
        0x428a_2f98u32, 0x7137_4491u32, 0xb5c0_fbcfu32, 0xe9b5_dba5u32, 0x3956_c25bu32, 0x59f1_11f1u32,
        0x923f_82a4u32, 0xab1c_5ed5u32, 0xd807_aa98u32, 0x1283_5b01u32, 0x2431_85beu32, 0x550c_7dc3u32,
        0x72be_5d74u32, 0x80de_b1feu32, 0x9bdc_06a7u32, 0xc19b_f174u32, 0xe49b_69c1u32, 0xefbe_4786u32,
        0x0fc1_9dc6u32, 0x240c_a1ccu32, 0x2de9_2c6fu32, 0x4a74_84aau32, 0x5cb0_a9dcu32, 0x76f9_88dau32,
        0x983e_5152u32, 0xa831_c66du32, 0xb003_27c8u32, 0xbf59_7fc7u32, 0xc6e0_0bf3u32, 0xd5a7_9147u32,
        0x06ca_6351u32, 0x1429_2967u32, 0x27b7_0a85u32, 0x2e1b_2138u32, 0x4d2c_6dfcu32, 0x5338_0d13u32,
        0x650a_7354u32, 0x766a_0abbu32, 0x81c2_c92eu32, 0x9272_2c85u32, 0xa2bf_e8a1u32, 0xa81a_664bu32,
        0xc24b_8b70u32, 0xc76c_51a3u32, 0xd192_e819u32, 0xd699_0624u32, 0xf40e_3585u32, 0x106a_a070u32,
        0x19a4_c116u32, 0x1e37_6c08u32, 0x2748_774cu32, 0x34b0_bcb5u32, 0x391c_0cb3u32, 0x4ed8_aa4au32,
        0x5b9c_ca4fu32, 0x682e_6ff3u32, 0x748f_82eeu32, 0x78a5_636fu32, 0x84c8_7814u32, 0x8cc7_0208u32,
        0x90be_fffau32, 0xa450_6cebu32, 0xbef9_a3f7u32, 0xc671_78f2u32,
    ]
}

fn constants() -> (r: [u32; 64])
    ensures
        r@ == round_constants(),
{
    let r: [u32; 64] = [
        0x428a_2f98u32, 0x7137_4491u32, 0xb5c0_fbcfu32, 0xe9b5_dba5u32, 0x3956_c25bu32, 0x59f1_11f1u32,
        0x923f_82a4u32, 0xab1c_5ed5u32, 0xd807_aa98u32, 0x1283_5b01u32, 0x2431_85beu32, 0x550c_7dc3u32,
        0x72be_5d74u32, 0x80de_b1feu32, 0x9bdc_06a7u32, 0xc19b_f174u32, 0xe49b_69c1u32, 0xefbe_4786u32,
        0x0fc1_9dc6u32, 0x240c_a1ccu32, 0x2de9_2c6fu32, 0x4a74_84aau32, 0x5cb0_a9dcu32, 0x76f9_88dau32,
        0x983e_5152u32, 0xa831_c66du32, 0xb003_27c8u32, 0xbf59_7fc7u32, 0xc6e0_0bf3u32, 0xd5a7_9147u32,
        0x06ca_6351u32, 0x1429_2967u32, 0x27b7_0a85u32, 0x2e1b_2138u32, 0x4d2c_6dfcu32, 0x5338_0d13u32,
        0x650a_7354u32, 0x766a_0abbu32, 0x81c2_c92eu32, 0x9272_2c85u32, 0xa2bf_e8a1u32, 0xa81a_664bu32,
        0xc24b_8b70u32, 0xc76c_51a3u32, 0xd192_e819u32, 0xd699_0624u32, 0xf40e_3585u32, 0x106a_a070u32,
        0x19a4_c116u32, 0x1e37_6c08u32, 0x2748_774cu32, 0x34b0_bcb5u32, 0x391c_0cb3u32, 0x4ed8_aa4au32,
        0x5b9c_ca4fu32, 0x682e_6ff3u32, 0x748f_82eeu32, 0x78a5_636fu32, 0x84c8_7814u32, 0x8cc7_0208u32,
        0x90be_fffau32, 0xa450_6cebu32, 0xbef9_a3f7u32, 0xc671_78f2u32,
    ];
    assert(r@ =~= round_constants());
    r
}

/// The registers before the first block: of the square roots of the first
/// primes, the fractional parts.
pub open spec fn first_registers() -> Registers {
    Registers {
        a: 0x6a09_e667,
        b: 0xbb67_ae85,
        c: 0x3c6e_f372,
        d: 0xa54f_f53a,
        e: 0x510e_527f,
        f: 0x9b05_688c,
        g: 0x1f83_d9ab,
        h: 0x5be0_cd19,
    }
}

/// `x` turned right by `n` bits.
pub open spec fn turned(x: u32, n: u32) -> u32 {
    (x >> n) | (x << ((32 - n) as u32))
}

fn turn(x: u32, n: u32) -> (r: u32)
    requires
        0 < n < 32,
    ensures
        r == turned(x, n),
{
    (x >> n) | (x << (32 - n))
}

pub open spec fn small_sigma_0(x: u32) -> u32 {
    turned(x, 7) ^ turned(x, 18) ^ (x >> 3)
}

pub open spec fn small_sigma_1(x: u32) -> u32 {
    turned(x, 17) ^ turned(x, 19) ^ (x >> 10)
}

pub open spec fn big_sigma_0(x: u32) -> u32 {
    turned(x, 2) ^ turned(x, 13) ^ turned(x, 22)
}

pub open spec fn big_sigma_1(x: u32) -> u32 {
    turned(x, 6) ^ turned(x, 11) ^ turned(x, 25)
}

/// For each bit, that of `y` where `x` has a one and that of `z` elsewhere.
pub open spec fn choice(x: u32, y: u32, z: u32) -> u32 {
    (x & y) ^ (!x & z)
}

/// For each bit, what most of the three have.
pub open spec fn majority(x: u32, y: u32, z: u32) -> u32 {
    (x & y) ^ (x & z) ^ (y & z)
}

/// The four bytes at `i` as a number, the highest first.
pub open spec fn big_word(m: Seq<u8>, i: int) -> u32 {
    (m[i] * 0x100_0000 + m[i + 1] * 0x1_0000 + m[i + 2] * 0x100 + m[i + 3]) as u32
}

/// What the block at `at` is expanded to: the word for round `t`.
pub open spec fn expanded(m: Seq<u8>, at: int, t: int) -> u32
    decreases t,
{
    if t < 16 {
        big_word(m, at + 4 * t)
    } else {
        small_sigma_1(expanded(m, at, t - 2)).wrapping_add(expanded(m, at, t - 7)).wrapping_add(
            small_sigma_0(expanded(m, at, t - 15)),
        ).wrapping_add(expanded(m, at, t - 16))
    }
}

/// The registers after one round with the constant `k` and the word `w`.
pub open spec fn rounded(s: Registers, k: u32, w: u32) -> Registers {
    let t1 = s.h.wrapping_add(big_sigma_1(s.e)).wrapping_add(choice(s.e, s.f, s.g)).wrapping_add(k).wrapping_add(w);
    let t2 = big_sigma_0(s.a).wrapping_add(majority(s.a, s.b, s.c));
    Registers {
        a: t1.wrapping_add(t2),
        b: s.a,
        c: s.b,
        d: s.c,
        e: s.d.wrapping_add(t1),
        f: s.e,
        g: s.f,
        h: s.g,
    }
}

/// The registers after the first `n` rounds on the block at `at`.
pub open spec fn rounds(s: Registers, m: Seq<u8>, at: int, n: int) -> Registers
    decreases n,
{
    if n <= 0 {
        s
    } else {
        rounded(rounds(s, m, at, n - 1), round_constants()[n - 1], expanded(m, at, n - 1))
    }
}

/// Register by register, the sum.
pub open spec fn joined(s: Registers, t: Registers) -> Registers {
    Registers {
        a: s.a.wrapping_add(t.a),
        b: s.b.wrapping_add(t.b),
        c: s.c.wrapping_add(t.c),
        d: s.d.wrapping_add(t.d),
        e: s.e.wrapping_add(t.e),
        f: s.f.wrapping_add(t.f),
        g: s.g.wrapping_add(t.g),
        h: s.h.wrapping_add(t.h),
    }
}

/// The registers after the first `n` blocks of 64 bytes.
pub open spec fn blocks(m: Seq<u8>, n: int) -> Registers
    decreases n,
{
    if n <= 0 {
        first_registers()
    } else {
        let s = blocks(m, n - 1);
        joined(s, rounds(s, m, 64 * (n - 1), 64))
    }
}

/// The bytes of a number, the highest first.
pub open spec fn big_bytes(v: u64, n: nat) -> Seq<u8>
    decreases n,
{
    if n == 0 {
        Seq::empty()
    } else {
        big_bytes(v / 256, (n - 1) as nat).push((v % 256) as u8)
    }
}

/// How many zeros bring a message of `len` bytes, and the byte after it, to 8
/// bytes short of a block.
pub open spec fn gap(len: nat) -> nat {
    ((119 - len % 64) % 64) as nat
}

/// The message filled up to whole blocks: a one bit, zeros, and its length in
/// bits.
pub open spec fn filled(m: Seq<u8>) -> Seq<u8> {
    m.push(0x80) + Seq::new(gap(m.len()), |i: int| 0u8) + big_bytes((m.len() * 8 % 0x1_0000_0000_0000_0000) as u64, 8)
}

/// Two hexadecimal digits for each byte.
pub open spec fn hex_bytes(b: Seq<u8>) -> Seq<u8>
    decreases b.len(),
{
    if b.len() == 0 {
        Seq::empty()
    } else {
        hex_bytes(b.drop_last()).push(hex_digit((b.last() / 16) as nat)).push(hex_digit((b.last() % 16) as nat))
    }
}

/// The registers as bytes.
pub open spec fn register_bytes(s: Registers) -> Seq<u8> {
    big_bytes(s.a as u64, 4) + big_bytes(s.b as u64, 4) + big_bytes(s.c as u64, 4) + big_bytes(s.d as u64, 4)
        + big_bytes(s.e as u64, 4) + big_bytes(s.f as u64, 4) + big_bytes(s.g as u64, 4) + big_bytes(s.h as u64, 4)
}

/// The hash of a message.
pub open spec fn sha256(m: Seq<u8>) -> Seq<u8> {
    register_bytes(blocks(filled(m), filled(m).len() as int / 64))
}

fn push_big(out: &mut Vec<u8>, v: u64, n: u64)
    requires
        n <= 8,
    ensures
        final(out)@ == old(out)@ + big_bytes(v, n as nat),
    decreases n,
{
    if n == 0 {
        assert(out@ =~= out@ + big_bytes(v, 0));
    } else {
        let ghost before = out@;
        push_big(out, v / 256, n - 1);
        out.push((v % 256) as u8);
        assert(out@ =~= before + big_bytes(v, n as nat));
    }
}

proof fn lemma_big_bytes_len(v: u64, n: nat)
    ensures
        big_bytes(v, n).len() == n,
    decreases n,
{
    if n > 0 {
        lemma_big_bytes_len(v / 256, (n - 1) as nat);
    }
}

/// A hash has 32 bytes.
pub proof fn lemma_sha256_len(m: Seq<u8>)
    ensures
        sha256(m).len() == 32,
{
    let s = blocks(filled(m), filled(m).len() as int / 64);
    lemma_big_bytes_len(s.a as u64, 4);
    lemma_big_bytes_len(s.b as u64, 4);
    lemma_big_bytes_len(s.c as u64, 4);
    lemma_big_bytes_len(s.d as u64, 4);
    lemma_big_bytes_len(s.e as u64, 4);
    lemma_big_bytes_len(s.f as u64, 4);
    lemma_big_bytes_len(s.g as u64, 4);
    lemma_big_bytes_len(s.h as u64, 4);
}

fn fill(m: &[u8]) -> (r: Vec<u8>)
    ensures
        r@ == filled(m@),
        r@.len() % 64 == 0,
{
    assert(m.len() == m@.len());
    let mut out: Vec<u8> = Vec::new();
    crate::text::push_bytes(&mut out, m);
    assert(out@ =~= m@);
    out.push(0x80);
    let zeros: usize = (119 - m.len() % 64) % 64;
    for i in 0..zeros
        invariant
            out@ == m@.push(0x80) + Seq::new(i as nat, |k: int| 0u8),
    {
        out.push(0);
        assert(out@ =~= m@.push(0x80) + Seq::new((i + 1) as nat, |k: int| 0u8));
    }
    let bits: u64 = (m.len() as u128 * 8 % 0x1_0000_0000_0000_0000) as u64;
    push_big(&mut out, bits, 8);
    proof {
        lemma_big_bytes_len(bits, 8);
        let n = m@.len() as int;
        let z = zeros as int;
        assert((n + 1 + z + 8) % 64 == 0) by {
            assert(z == (119 - n % 64) % 64);
        }
    }
    out
}

fn expand(m: &Vec<u8>, at: usize) -> (r: Vec<u32>)
    requires
        at + 64 <= m@.len(),
    ensures
        r@.len() == 64,
        forall|t: int| 0 <= t < 64 ==> #[trigger] r@[t] == expanded(m@, at as int, t),
{
    let mut w: Vec<u32> = Vec::new();
    for t in 0..64usize
        invariant
            at + 64 <= m@.len(),
            w@.len() == t,
            forall|u: int| 0 <= u < t ==> #[trigger] w@[u] == expanded(m@, at as int, u),
    {
        assert(m.len() == m@.len());
        if t < 16 {
            let i: usize = at + 4 * t;
            let x: u32 = m[i] as u32 * 0x100_0000 + m[i + 1] as u32 * 0x1_0000 + m[i + 2] as u32 * 0x100 + m[i
                + 3] as u32;
            w.push(x);
        } else {
            let p: u32 = w[t - 2];
            let q: u32 = w[t - 15];
            let s1: u32 = turn(p, 17) ^ turn(p, 19) ^ (p >> 10);
            let s0: u32 = turn(q, 7) ^ turn(q, 18) ^ (q >> 3);
            w.push(s1.wrapping_add(w[t - 7]).wrapping_add(s0).wrapping_add(w[t - 16]));
        }
    }
    w
}

fn round(s: Registers, k: u32, w: u32) -> (r: Registers)
    ensures
        r == rounded(s, k, w),
{
    let sum1: u32 = turn(s.e, 6) ^ turn(s.e, 11) ^ turn(s.e, 25);
    let chosen: u32 = (s.e & s.f) ^ (!s.e & s.g);
    let t1: u32 = s.h.wrapping_add(sum1).wrapping_add(chosen).wrapping_add(k).wrapping_add(w);
    let sum0: u32 = turn(s.a, 2) ^ turn(s.a, 13) ^ turn(s.a, 22);
    let most: u32 = (s.a & s.b) ^ (s.a & s.c) ^ (s.b & s.c);
    let t2: u32 = sum0.wrapping_add(most);
    Registers {
        a: t1.wrapping_add(t2),
        b: s.a,
        c: s.b,
        d: s.c,
        e: s.d.wrapping_add(t1),
        f: s.e,
        g: s.f,
        h: s.g,
    }
}

fn compress(s: Registers, m: &Vec<u8>, at: usize) -> (r: Registers)
    requires
        at + 64 <= m@.len(),
    ensures
        r == joined(s, rounds(s, m@, at as int, 64)),
{
    let w = expand(m, at);
    let k = constants();
    let mut t: Registers = s;
    for i in 0..64usize
        invariant
            w@.len() == 64,
            forall|u: int| 0 <= u < 64 ==> #[trigger] w@[u] == expanded(m@, at as int, u),
            k@ == round_constants(),
            t == rounds(s, m@, at as int, i as int),
    {
        t = round(t, k[i], w[i]);
    }
    Registers {
        a: s.a.wrapping_add(t.a),
        b: s.b.wrapping_add(t.b),
        c: s.c.wrapping_add(t.c),
        d: s.d.wrapping_add(t.d),
        e: s.e.wrapping_add(t.e),
        f: s.f.wrapping_add(t.f),
        g: s.g.wrapping_add(t.g),
        h: s.h.wrapping_add(t.h),
    }
}

fn digest(m: &[u8]) -> (r: Vec<u8>)
    ensures
        r@ == sha256(m@),
{
    let full = fill(m);
    let mut s = Registers {
        a: 0x6a09_e667,
        b: 0xbb67_ae85,
        c: 0x3c6e_f372,
        d: 0xa54f_f53a,
        e: 0x510e_527f,
        f: 0x9b05_688c,
        g: 0x1f83_d9ab,
        h: 0x5be0_cd19,
    };
    let n: usize = full.len() / 64;
    for i in 0..n
        invariant
            n == full@.len() / 64,
            s == blocks(full@, i as int),
    {
        assert(full.len() == full@.len());
        s = compress(s, &full, 64 * i);
    }
    let mut out: Vec<u8> = Vec::new();
    push_big(&mut out, s.a as u64, 4);
    assert(out@ =~= big_bytes(s.a as u64, 4));
    push_big(&mut out, s.b as u64, 4);
    push_big(&mut out, s.c as u64, 4);
    push_big(&mut out, s.d as u64, 4);
    push_big(&mut out, s.e as u64, 4);
    push_big(&mut out, s.f as u64, 4);
    push_big(&mut out, s.g as u64, 4);
    push_big(&mut out, s.h as u64, 4);
    out
}

fn digit(d: u8) -> (r: u8)
    requires
        d < 16,
    ensures
        r == hex_digit(d as nat),
{
    if d < 10 {
        0x30 + d
    } else {
        0x57 + d
    }
}

/// The hash of `m`, as 64 hexadecimal digits.
pub fn sha256_hex(m: &[u8]) -> (r: Vec<u8>)
    ensures
        r@ == hex_bytes(sha256(m@)),
        r@.len() == 64,
{
    let d = digest(m);
    let mut out: Vec<u8> = Vec::new();
    proof {
        lemma_sha256_len(m@);
        assert(out@ =~= hex_bytes(d@.take(0)));
    }
    for i in 0..d.len()
        invariant
            out@ == hex_bytes(d@.take(i as int)),
            out@.len() == 2 * i,
    {
        assert(d@.take(i + 1).drop_last() =~= d@.take(i as int));
        let b: u8 = d[i];
        out.push(digit(b / 16));
        out.push(digit(b % 16));
    }
    assert(d@.take(d@.len() as int) =~= d@);
    out
}

} // verus!
