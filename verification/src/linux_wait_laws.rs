//! When waits with a time limit end, by the numbers of the calls that start
//! them.
use crate::elf_format::{law_numbers, quad, word};
use crate::kernel::Kernel;
use crate::linux_abi::{deadline_of, NextV, ReplyV};
use crate::linux_laws::refused;
use crate::linux_syscall::{call_done, piece, Args};
use crate::linux_task_laws::{only_task_table, sleeps_at};
use crate::linux_tasks::{futex_done, Machine};
use crate::task::TaskState;
use vstd::prelude::*;

verus! {

/// A time in nanoseconds, given as seconds and nanoseconds.
pub open spec fn time_of(b: Seq<u8>) -> int {
    quad(b, 0) * 1_000_000_000 + quad(b, 8)
}

/// Whether a time is given in order, and is not too long to be counted.
pub open spec fn is_time(b: Seq<u8>) -> bool {
    b.len() >= 16 && 0 <= quad(b, 0) <= 1_000_000_000_000 && 0 <= quad(b, 8) < 1_000_000_000
}

/// Whether a tick is the one to wait for, of which each is ten million
/// nanoseconds: the first that is not before a point in time, or one that is
/// no sooner than a time from now and less than two ticks later.
pub open spec fn is_end(end: u64, now: u64, time: int, from_now: bool) -> bool {
    if from_now {
        time <= (end - now) * 10_000_000 < time + 20_000_000
    } else {
        time <= end * 10_000_000 < time + 10_000_000
    }
}

proof fn lemma_deadline(ptr: u64, b: Seq<u8>, from_now: bool, now: u64)
    requires
        is_time(b),
        ptr != 0,
        ptr + 16 <= u64::MAX,
        now <= 1_000_000_000_000_000,
    ensures
        deadline_of(ptr, b, from_now, now) matches Ok(end) && is_end(end, now, time_of(b), from_now) && (from_now
            && time_of(b) > 0 ==> end > now) && (from_now && time_of(b) == 0 ==> end == now),
{
    law_numbers(b, 0);
    law_numbers(b, 8);
}

/// The running task sleeps until a tick.
pub open spec fn sleeps_until(after: Kernel, now: u64, time: int, from_now: bool) -> bool {
    &&& after.tasks@.running() matches Some(t)
    &&& t.state == TaskState::Blocked
    &&& t.wait_deadline matches Some(end)
    &&& end > now
    &&& is_end(end, now, time, from_now)
}

/// Sleeping by a clock (230; 0, 1 or 7): for a time from now on, or with 1 as
/// the second argument until a point in time. A point that has passed, or no
/// time at all, is not waited for.
#[verifier::spinoff_prover]
#[verifier::rlimit(60)]
pub proof fn law_sleep_by_clock(before: Kernel, after: Kernel, a: Args, m: Machine, p: Seq<Seq<u8>>, r: ReplyV)
    requires
        before.wf(),
        call_done(before, after, 230, a, m, p, r),
        is_time(piece(p, 0)),
        a.a2 != 0,
        a.a2 + 16 <= u64::MAX,
        m.now <= 1_000_000_000_000_000,
    ensures
        only_task_table(before, after),
        a.a0 != 0 && a.a0 != 1 && a.a0 != 7 || a.a1 > 1 ==> refused(r, 22) && after.tasks@ == before.tasks@,
        (a.a0 == 0 || a.a0 == 1 || a.a0 == 7) && a.a1 <= 1 ==> {
            let time = time_of(piece(p, 0));
            if a.a1 == 0 && time > 0 || a.a1 == 1 && time > m.now * 10_000_000 {
                r.next == NextV::Sleep && r.value == 0 && sleeps_until(after, m.now, time, a.a1 == 0)
            } else {
                r.next == NextV::Resume && r.value == 0 && after.tasks@ == before.tasks@
            }
        },
{
    lemma_deadline(a.a2, piece(p, 0), a.a1 == 0, m.now);
}

#[verifier::spinoff_prover]
#[verifier::rlimit(60)]
proof fn lemma_timed(
    before: Kernel,
    after: Kernel,
    a: Args,
    mask: u64,
    time: Seq<u8>,
    seen: Seq<u8>,
    now: u64,
    r: ReplyV,
    from_now: bool,
)
    requires
        before.wf(),
        futex_done(before, after, a.a0, a.a1, a.a2, a.a3, mask, time, seen, now, r),
        crate::linux_tasks::futex_command(a.a1) == if from_now {
            0u64
        } else {
            9u64
        },
        crate::linux_tasks::futex_refused(a.a0, a.a1, mask) is None,
        is_time(time),
        seen.len() >= 4,
        a.a3 != 0,
        a.a3 + 16 <= u64::MAX,
        now <= 1_000_000_000_000_000,
        from_now ==> time_of(time) > 0,
    ensures
        only_task_table(before, after),
        word(seen, 0) != a.a2 % 0x1_0000_0000 ==> refused(r, 11) && after.tasks@ == before.tasks@,
        word(seen, 0) == a.a2 % 0x1_0000_0000 ==> if !from_now && time_of(time) <= now * 10_000_000 {
            refused(r, 110) && after.tasks@ == before.tasks@
        } else {
            &&& r.next == NextV::Wait
            &&& sleeps_at(after.tasks@.running(), a.a0)
            &&& sleeps_until(after, now, time_of(time), from_now)
        },
{
    law_numbers(seen, 0);
    lemma_deadline(a.a3, time, from_now, now);
}

/// Waiting at an address (202) with a time limit: from now on with operation
/// 0, and until a point in time with operation 9. The task sleeps there if
/// the word is the one it expects, and is refused if it is not (11) or the
/// point has passed (110).
pub proof fn law_timed_wait(before: Kernel, after: Kernel, a: Args, m: Machine, p: Seq<Seq<u8>>, r: ReplyV)
    requires
        before.wf(),
        call_done(before, after, 202, a, m, p, r),
        a.a1 == 0 || a.a1 == 128 || (a.a1 == 9 || a.a1 == 137) && m.frame@[5] % 0x1_0000_0000 == 0xFFFF_FFFF,
        a.a0 % 4 == 0,
        a.a3 != 0,
        a.a3 + 16 <= u64::MAX,
        p.len() == 2,
        is_time(p[0]),
        p[1].len() >= 4,
        m.now <= 1_000_000_000_000_000,
        a.a1 % 128 == 0 ==> time_of(p[0]) > 0,
    ensures
        only_task_table(before, after),
        word(p[1], 0) != a.a2 % 0x1_0000_0000 ==> refused(r, 11) && after.tasks@ == before.tasks@,
        word(p[1], 0) == a.a2 % 0x1_0000_0000 ==> if a.a1 % 128 == 9 && time_of(p[0]) <= m.now * 10_000_000 {
            refused(r, 110) && after.tasks@ == before.tasks@
        } else {
            &&& r.next == NextV::Wait
            &&& sleeps_at(after.tasks@.running(), a.a0)
            &&& sleeps_until(after, m.now, time_of(p[0]), a.a1 % 128 == 0)
        },
{
    lemma_operations();
    lemma_timed(before, after, a, m.frame@[5], p[0], p[1], m.now, r, a.a1 % 128 == 0);
}

proof fn lemma_operations()
    by (bit_vector)
    ensures
        0u64 & 0xFFFF_FFFF_FFFF_FE7F == 0,
        128u64 & 0xFFFF_FFFF_FFFF_FE7F == 0,
        9u64 & 0xFFFF_FFFF_FFFF_FE7F == 9,
        137u64 & 0xFFFF_FFFF_FFFF_FE7F == 9,
        0u64 & 0x100 == 0,
        128u64 & 0x100 == 0,
        9u64 & 0x100 == 0,
        137u64 & 0x100 == 0,
{
}

} // verus!
