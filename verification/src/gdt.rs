//! Segment descriptors and selectors, and the machine words that are put
//! together from them.
use vstd::arithmetic::div_mod::lemma_fundamental_div_mod_converse;
use vstd::prelude::*;

verus! {

pub const KERNEL_CODE_SELECTOR: u16 = 0x08;

pub const KERNEL_DATA_SELECTOR: u16 = 0x10;

pub const TSS_SELECTOR: u16 = 0x18;

pub const DOUBLE_FAULT_IST_INDEX: u16 = 1;

pub const USER_CODE_SELECTOR: u16 = 0x2B;

pub const USER_DATA_SELECTOR: u16 = 0x33;

pub const SYSRET_USER_DATA_SELECTOR: u16 = 0x43;

pub const SYSRET_USER_CODE_SELECTOR: u16 = 0x4B;

/// A descriptor without a base or a limit: its flags and its access byte.
pub open spec fn flat(access: u8, flags: u8) -> u64 {
    ((flags % 16) * 0x10_0000_0000_0000 + access * 0x100_0000_0000) as u64
}

pub fn flat_descriptor(access: u8, flags: u8) -> (r: u64)
    ensures
        r == flat(access, flags),
{
    ((flags % 16) as u64) * 0x10_0000_0000_0000 + (access as u64) * 0x100_0000_0000
}

/// The two words of the descriptor of a task state segment: its limit and its
/// base in their scattered parts, and the access byte between them.
pub open spec fn task_segment(base: u64, limit: u32) -> (u64, u64) {
    (
        (limit % 0x1_0000 + (base % 0x100_0000) * 0x1_0000 + 0x89 * 0x100_0000_0000 + (limit / 0x1_0000 % 16)
            * 0x1_0000_0000_0000 + (base / 0x100_0000 % 256) * 0x100_0000_0000_0000) as u64,
        (base / 0x1_0000_0000) as u64,
    )
}

pub fn tss_descriptor(base: u64, limit: u32) -> (r: (u64, u64))
    ensures
        r == task_segment(base, limit),
{
    let low: u64 = (limit % 0x1_0000) as u64 + (base % 0x100_0000) * 0x1_0000 + 0x89 * 0x100_0000_0000 + (((limit
        / 0x1_0000) % 16) as u64) * 0x1_0000_0000_0000 + (base / 0x100_0000 % 256) * 0x100_0000_0000_0000;
    (low, base / 0x1_0000_0000)
}

/// The table of descriptors, for a task state segment at `base`. The last
/// three stand where a fast return from the kernel looks for them.
pub open spec fn table(base: u64, limit: u32) -> Seq<u64> {
    let tss = task_segment(base, limit);
    seq![
        0u64,
        flat(0x9A, 2),
        flat(0x92, 0),
        tss.0,
        tss.1,
        flat(0xFA, 2),
        flat(0xF2, 0),
        0u64,
        flat(0xF2, 0),
        flat(0xFA, 2),
    ]
}

pub fn build(base: u64, limit: u32) -> (r: Vec<u64>)
    ensures
        r@ == table(base, limit),
{
    let (low, high) = tss_descriptor(base, limit);
    let r: Vec<u64> = vec![
        0u64,
        flat_descriptor(0x9A, 2),
        flat_descriptor(0x92, 0),
        low,
        high,
        flat_descriptor(0xFA, 2),
        flat_descriptor(0xF2, 0),
        0u64,
        flat_descriptor(0xF2, 0),
        flat_descriptor(0xFA, 2),
    ];
    assert(r@ =~= table(base, limit));
    r
}

/// Every selector points at its descriptor: a selector is eight times the
/// place in the table, plus the privilege level.
pub proof fn law_selectors(base: u64, limit: u32)
    ensures
        table(base, limit)[KERNEL_CODE_SELECTOR as int / 8] == flat(0x9A, 2),
        table(base, limit)[KERNEL_DATA_SELECTOR as int / 8] == flat(0x92, 0),
        table(base, limit)[TSS_SELECTOR as int / 8] == task_segment(base, limit).0,
        table(base, limit)[USER_CODE_SELECTOR as int / 8] == flat(0xFA, 2),
        table(base, limit)[USER_DATA_SELECTOR as int / 8] == flat(0xF2, 0),
        table(base, limit)[SYSRET_USER_DATA_SELECTOR as int / 8] == flat(0xF2, 0),
        table(base, limit)[SYSRET_USER_CODE_SELECTOR as int / 8] == flat(0xFA, 2),
        USER_CODE_SELECTOR % 8 == 3,
        USER_DATA_SELECTOR % 8 == 3,
        SYSRET_USER_DATA_SELECTOR % 8 == 3,
        SYSRET_USER_CODE_SELECTOR % 8 == 3,
{
}

/// The word that tells the processor which selectors system calls use: the
/// kernel's code segment, and the place from which it counts on a return.
pub fn star() -> (r: u64)
    ensures
        r == (SYSRET_USER_DATA_SELECTOR - 3 - 8) * 0x1_0000_0000_0000 + KERNEL_CODE_SELECTOR * 0x1_0000_0000,
        (r / 0x1_0000_0000_0000 + 8) + 3 == SYSRET_USER_DATA_SELECTOR,
        (r / 0x1_0000_0000_0000 + 16) + 3 == SYSRET_USER_CODE_SELECTOR,
{
    let sysret: u64 = SYSRET_USER_DATA_SELECTOR as u64 - 11;
    sysret * 0x1_0000_0000_0000 + (KERNEL_CODE_SELECTOR as u64) * 0x1_0000_0000
}

/// The flags that are cleared on a system call: interrupts, single steps and
/// the direction of string operations.
pub const SFMASK: u64 = 0x700;

/// A word as its low and its high half.
pub fn halves(value: u64) -> (r: (u32, u32))
    ensures
        r.0 + r.1 * 0x1_0000_0000 == value,
{
    ((value % 0x1_0000_0000) as u32, (value / 0x1_0000_0000) as u32)
}

/// The descriptor of the task segment has the base in three places, which
/// together give it back, and the limit in two; it is of an available task
/// segment that is present.
pub proof fn law_task_segment(base: u64, limit: u32)
    requires
        limit < 0x10_0000,
    ensures
        ({
            let (low, high) = task_segment(base, limit);
            &&& low / 0x1_0000 % 0x100_0000 + 0x100_0000 * (low / 0x100_0000_0000_0000) + 0x1_0000_0000 * high == base
            &&& low % 0x1_0000 + 0x1_0000 * (low / 0x1_0000_0000_0000 % 16) == limit
            &&& low / 0x100_0000_0000 % 256 == 0x89
        }),
{
    let a = (limit % 0x1_0000) as int;
    let b = (base % 0x100_0000) as int;
    let c = (limit / 0x1_0000 % 16) as int;
    let d = (base / 0x100_0000 % 256) as int;
    let low = a + b * 0x1_0000 + 0x89 * 0x100_0000_0000 + c * 0x1_0000_0000_0000 + d * 0x100_0000_0000_0000;
    let q1 = b + 0x100_0000 * (0x89 + 256 * (c + 256 * d));
    let q2 = 0x89 + 256 * (c + 256 * d);
    let q3 = c + 256 * d;
    assert(low == q1 * 0x1_0000 + a);
    lemma_fundamental_div_mod_converse(low, 0x1_0000, q1, a);
    lemma_fundamental_div_mod_converse(q1, 0x100_0000, q2, b);
    lemma_fundamental_div_mod_converse(low, 0x100_0000_0000, q2, b * 0x1_0000 + a);
    lemma_fundamental_div_mod_converse(q2, 256, q3, 0x89);
    lemma_fundamental_div_mod_converse(low, 0x1_0000_0000_0000, q3, 0x89 * 0x100_0000_0000 + b * 0x1_0000 + a);
    assert(q3 == 16 * (16 * d) + c);
    lemma_fundamental_div_mod_converse(q3, 16, 16 * d, c);
    lemma_fundamental_div_mod_converse(
        low,
        0x100_0000_0000_0000,
        d,
        c * 0x1_0000_0000_0000 + 0x89 * 0x100_0000_0000 + b * 0x1_0000 + a,
    );
    assert(task_segment(base, limit).0 == low);
    assert(base == b + 0x100_0000 * d + 0x1_0000_0000 * (base / 0x1_0000_0000)) by {
        assert(base / 0x1_0000_0000 == base / 0x100_0000 / 256);
    }
}

/// The segments of code are of 64 bits, those of data are not run. All are
/// present; the first two are the kernel's, the others a program's, which
/// has level 3.
pub proof fn law_segments(base: u64, limit: u32, k: int)
    requires
        k == 1 || k == 2 || k == 5 || k == 6 || k == 8 || k == 9,
    ensures
        ({
            let d = table(base, limit)[k];
            let access = d / 0x100_0000_0000 % 256;
            let code = k == 1 || k == 5 || k == 9;
            &&& access / 128 == 1
            &&& access / 32 % 4 == if k <= 2 {
                0u64
            } else {
                3u64
            }
            &&& access / 16 % 2 == 1
            &&& access / 8 % 2 == if code {
                1u64
            } else {
                0u64
            }
            &&& access / 2 % 2 == 1
            &&& d / 0x20_0000_0000_0000 % 2 == if code {
                1u64
            } else {
                0u64
            }
        }),
{
}

} // verus!
