//! What holds of the Linux system calls on tasks, waiting, signals, memory
//! and time, by their numbers.
use crate::kernel::{grown, page_fault_done, zero_page, FaultAction, Kernel, PfFrame, NO_HEAP};
use crate::le::{bytes32, bytes64, le32, le64, lemma_le32_of_bytes32};
use crate::linux_abi::{NextV, ReplyV};
use crate::linux_laws::{answers, delivers, lemma_le64_of_bytes64, refused};
use crate::linux_syscall::{call_done, piece, Args};
use crate::linux_tasks::{clone_done, handler_bytes, Machine};
use crate::loader_laws::lemma_same_byte;
use crate::mmu::{entry_matches, page_entry, page_in};
use crate::paging::{leaf_of, Mem};
use crate::program_laws::lemma_placed_entry;
use crate::space::{law_placed, lemma_filled, placed, space_ok};
use crate::task::{free_slot, lemma_free_slot, SavedContext, Task, TaskState};
use crate::task_laws::numbered;
use crate::vm::mapping_at;
use vstd::prelude::*;

verus! {

// ---- New tasks ----

/// Nothing but the table of tasks has changed.
pub open spec fn only_task_table(before: Kernel, after: Kernel) -> bool {
    after.mem == before.mem && after.regions == before.regions && after.fs == before.fs
}

/// `t` is a copy of `parent` that goes on after the call that made it: its
/// sixteen saved registers are those of the caller, but for the answer, which
/// is the thirteenth and zero, and the stack, which is the last. They lie at
/// the top of its own kernel stack, below them the seven words of its first
/// switch, the last of which is where it resumes.
pub open spec fn resumes_as_child(t: Task, parent: Task, m: Machine, stack: u64) -> bool {
    &&& t.state == TaskState::Ready
    &&& t.stack@.len() == 23
    &&& t.stack@[6] == m.resume
    &&& t.stack@[19] == 0
    &&& t.stack@[22] == stack
    &&& forall|i: int| 0 <= i < 16 && i != 12 && i != 15 ==> #[trigger] t.stack@[7 + i] == m.frame@[i]
    &&& t.kernel_stack_top == m.stack + 0x8000
    &&& t.saved_rsp == t.kernel_stack_top - 8 * 23
    &&& t.files == parent.files
    &&& t.heap_end == parent.heap_end
    &&& t.exe_path@ == parent.exe_path@
    &&& t.ticks_run == 0
    &&& t.futex_addr is None
    &&& t.wait_deadline is None
    &&& t.sig_delivering is None
    &&& forall|s: int| 0 <= s < 32 ==> #[trigger] t.sig_handlers@[s] == (0u64, 0u64, 0u64)
}

/// What making a task like the running one does, by the bits of `flags`: bit
/// 10 to share the open files, which must be set; bit 19 to have a thread
/// pointer of its own; bit 20 to tell the caller its number in memory; bit 21
/// to clear a word when it ends.
pub open spec fn made_task(
    before: Kernel,
    after: Kernel,
    flags: u64,
    stack: u64,
    parent_tid: u64,
    child_tid: u64,
    tls: u64,
    m: Machine,
    r: ReplyV,
    i: int,
) -> bool {
    let parent = before.task();
    let t = after.tasks@.slots[i]->0;
    &&& flags & 0x400 != 0
    &&& 0 <= i < 16
    &&& before.tasks@.slots[i] is None
    &&& after.tasks@.slots[i] is Some
    &&& resumes_as_child(t, parent, m, stack)
    &&& t.cr3 == before.space()
    &&& t.fs_base == if flags & 0x8_0000 != 0 {
        tls
    } else {
        parent.fs_base
    }
    &&& t.child_tidptr == if flags & 0x20_0000 != 0 {
        Some(child_tid)
    } else {
        None
    }
    &&& t.id == before.tasks@.next_id
    &&& after.tasks@.next_id == before.tasks@.next_id.wrapping_add(1)
    &&& after.tasks@.current == before.tasks@.current
    &&& after.tasks@.files == before.tasks@.files
    &&& forall|j: int| 0 <= j < 16 && j != i ==> #[trigger] after.tasks@.slots[j] == before.tasks@.slots[j]
    &&& if flags & 0x10_0000 != 0 && parent_tid != 0 {
        &&& delivers(r, t.id as int, parent_tid, r.writes[0].1)
        &&& r.writes[0].1.len() == 4
        &&& le32(r.writes[0].1, 0) == t.id % 0x1_0000_0000
    } else {
        answers(r, t.id as int)
    }
}

/// A request to make a task is refused, and nothing changes.
pub open spec fn made_none(before: Kernel, after: Kernel, flags: u64, r: ReplyV) -> bool {
    &&& after.tasks@ == before.tasks@
    &&& if flags & 0x400 == 0 {
        refused(r, 38)
    } else {
        refused(r, 11) && forall|j: int| 0 <= j < 16 ==> #[trigger] before.tasks@.slots[j] is Some
    }
}

pub open spec fn made_or_refused(
    before: Kernel,
    after: Kernel,
    flags: u64,
    stack: u64,
    parent_tid: u64,
    child_tid: u64,
    tls: u64,
    m: Machine,
    r: ReplyV,
) -> bool {
    &&& only_task_table(before, after)
    &&& made_none(before, after, flags, r) || exists|i: int|
        #[trigger] made_task(before, after, flags, stack, parent_tid, child_tid, tls, m, r, i)
}

proof fn lemma_no_slot(slots: Seq<Option<Task>>, from: int)
    requires
        0 <= from <= slots.len(),
        free_slot(slots, from) is None,
    ensures
        forall|j: int| from <= j < slots.len() ==> #[trigger] slots[j] is Some,
    decreases slots.len() - from,
{
    if from < slots.len() {
        lemma_no_slot(slots, from + 1);
    }
}

#[verifier::spinoff_prover]
#[verifier::rlimit(40)]
proof fn lemma_clone(
    before: Kernel,
    after: Kernel,
    flags: u64,
    stack: u64,
    parent_tid: u64,
    child_tid: u64,
    tls: u64,
    m: Machine,
    r: ReplyV,
)
    requires
        before.wf(),
        m.stack + 0x8000 <= u64::MAX,
        clone_done(before, after, flags, stack, parent_tid, child_tid, tls, m, r),
    ensures
        made_or_refused(before, after, flags, stack, parent_tid, child_tid, tls, m, r),
{
    if flags & 0x400 != 0 {
        match free_slot(before.tasks@.slots, 0) {
            None => {
                lemma_no_slot(before.tasks@.slots, 0);
            },
            Some(i) => {
                lemma_free_slot(before.tasks@.slots, 0);
                let t = after.tasks@.slots[i]->0;
                if flags & 0x10_0000 != 0 && parent_tid != 0 {
                    let word = bytes32((t.id % 0x1_0000_0000) as u32);
                    assert(word.subrange(0, 4) =~= word);
                    lemma_le32_of_bytes32(word, 0, (t.id % 0x1_0000_0000) as u32);
                }
                assert(forall|j: int| 0 <= j < 16 && j != 12 && j != 15 ==> #[trigger] t.stack@[7 + j] == m.frame@[j]);
                assert(made_task(before, after, flags, stack, parent_tid, child_tid, tls, m, r, i));
            },
        }
    }
}

/// Making a task (56) with a stack of its own: the new task is answered zero,
/// the caller the number of the new one, which no task had and which is not
/// zero. Without a stack it is refused.
pub proof fn law_clone(before: Kernel, after: Kernel, a: Args, m: Machine, p: Seq<Seq<u8>>, r: ReplyV)
    requires
        before.wf(),
        m.stack + 0x8000 <= u64::MAX,
        call_done(before, after, 56, a, m, p, r),
    ensures
        a.a1 == 0 ==> refused(r, 22) && after == before,
        a.a1 != 0 ==> made_or_refused(before, after, a.a0, a.a1, a.a2, a.a3, a.a4, m, r),
        a.a1 != 0 && a.a0 & 0x400 != 0 && numbered(before.tasks@) && (exists|j: int|
            0 <= j < 16 && #[trigger] before.tasks@.slots[j] is None) ==> r.value != 0 && forall|j: int|
            0 <= j < 16 ==> (#[trigger] before.tasks@.slots[j] matches Some(t) ==> t.id != r.value),
{
    if a.a1 != 0 {
        lemma_clone(before, after, a.a0, a.a1, a.a2, a.a3, a.a4, m, r);
        if a.a0 & 0x400 != 0 && numbered(before.tasks@) && (exists|j: int|
            0 <= j < 16 && #[trigger] before.tasks@.slots[j] is None) {
            assert(before.tasks@.slots[before.tasks@.current] is Some);
            assert(!made_none(before, after, a.a0, r));
        }
    }
}

/// The newer form of the call (435) takes its arguments from memory, eight
/// bytes each: the flags first, where to clear a word at 16, where to tell the
/// number at 24, the stack at 40 and its size at 48, the thread pointer at 56.
/// It does what the older form does with the end of that stack.
pub proof fn law_clone3(before: Kernel, after: Kernel, a: Args, m: Machine, p: Seq<Seq<u8>>, r: ReplyV)
    requires
        before.wf(),
        m.stack + 0x8000 <= u64::MAX,
        call_done(before, after, 435, a, m, p, r),
    ensures
        ({
            let b = piece(p, 0);
            if a.a1 < 64 || b.len() < 64 || le64(b, 40) == 0 || le64(b, 48) == 0 {
                refused(r, 22) && after == before
            } else {
                made_or_refused(
                    before,
                    after,
                    le64(b, 0),
                    le64(b, 40).wrapping_add(le64(b, 48)),
                    le64(b, 24),
                    le64(b, 16),
                    le64(b, 56),
                    m,
                    r,
                )
            }
        }),
{
    let b = piece(p, 0);
    if !(a.a1 < 64 || b.len() < 64 || le64(b, 40) == 0 || le64(b, 48) == 0) {
        lemma_clone(
            before,
            after,
            le64(b, 0),
            le64(b, 40).wrapping_add(le64(b, 48)),
            le64(b, 24),
            le64(b, 16),
            le64(b, 56),
            m,
            r,
        );
    }
}

/// Whether a task is asleep until it is woken at an address.
pub open spec fn sleeps_at(t: Option<Task>, addr: u64) -> bool {
    t is Some && (t->0).state == TaskState::Blocked && (t->0).futex_addr == Some(addr)
}

/// `t` is the task `was`, woken: it can run again and waits for nothing.
pub open spec fn awake(t: Option<Task>, was: Option<Task>) -> bool {
    &&& t is Some && was is Some
    &&& (t->0).id == (was->0).id
    &&& (t->0).state == TaskState::Ready
    &&& (t->0).futex_addr is None
    &&& (t->0).wait_deadline is None
    &&& !(t->0).futex_timed_out
    &&& (t->0).stack == (was->0).stack
    &&& (t->0).saved_rsp == (was->0).saved_rsp
    &&& (t->0).cr3 == (was->0).cr3
    &&& (t->0).files == (was->0).files
}

/// Ending (60, 231) makes the running task a finished one that nothing runs
/// again. A word that it was to clear is cleared, and whoever waits there is
/// woken.
pub proof fn law_exit(before: Kernel, after: Kernel, number: u64, a: Args, m: Machine, p: Seq<Seq<u8>>, r: ReplyV)
    requires
        before.wf(),
        number == 60 || number == 231,
        call_done(before, after, number, a, m, p, r),
    ensures
        only_task_table(before, after),
        r.next == NextV::Exit,
        after.tasks@.current == before.tasks@.current,
        after.tasks@.slots[before.tasks@.current] matches Some(t) && t.state == TaskState::Terminated && t.id
            == before.task().id,
        match before.task().child_tidptr {
            None => r.writes.len() == 0 && forall|j: int|
                0 <= j < 16 && j != before.tasks@.current ==> #[trigger] after.tasks@.slots[j]
                    == before.tasks@.slots[j],
            Some(at) => {
                &&& r.writes.len() == 1
                &&& r.writes[0].0 == at
                &&& r.writes[0].1.len() == 4
                &&& le32(r.writes[0].1, 0) == 0
                &&& forall|j: int|
                    0 <= j < 16 && j != before.tasks@.current ==> {
                        &&& !sleeps_at(#[trigger] after.tasks@.slots[j], at)
                        &&& sleeps_at(before.tasks@.slots[j], at) ==> awake(after.tasks@.slots[j], before.tasks@.slots[j])
                        &&& !sleeps_at(before.tasks@.slots[j], at) ==> after.tasks@.slots[j] == before.tasks@.slots[j]
                    }
            },
        },
{
    if let Some(at) = before.task().child_tidptr {
        let left = before.tasks@.with(Task { child_tidptr: None, ..crate::task::ended(before.task()) });
        assert forall|j: int| 0 <= j < 16 && j != before.tasks@.current implies {
            &&& !sleeps_at(#[trigger] after.tasks@.slots[j], at)
            &&& sleeps_at(before.tasks@.slots[j], at) ==> awake(after.tasks@.slots[j], before.tasks@.slots[j])
            &&& !sleeps_at(before.tasks@.slots[j], at) ==> after.tasks@.slots[j] == before.tasks@.slots[j]
        } by {
            crate::task_laws::law_wake_all(left.slots, at, j);
            assert(left.slots[j] == before.tasks@.slots[j]);
        }
    }
}

// ---- Signals ----

/// Setting what handles a signal (13) keeps three numbers from memory, the
/// handler, the flags and where the handler returns to, and asking tells them
/// again in the same order. Signal zero and signals from 32 on are refused.
pub proof fn law_signal_handlers(before: Kernel, after: Kernel, a: Args, m: Machine, p: Seq<Seq<u8>>, r: ReplyV)
    requires
        before.wf(),
        call_done(before, after, 13, a, m, p, r),
    ensures
        ({
            let s = a.a0 as int;
            let act = piece(p, 0);
            let had = before.task().sig_handlers@[s];
            if s == 0 || s >= 32 {
                refused(r, 22) && after == before
            } else if a.a1 != 0 && act.len() < 24 {
                refused(r, 14) && after == before
            } else {
                &&& only_task_table(before, after)
                &&& if a.a2 != 0 {
                    &&& delivers(r, 0, a.a2, r.writes[0].1)
                    &&& r.writes[0].1.len() == 32
                    &&& le64(r.writes[0].1, 0) == had.0
                    &&& le64(r.writes[0].1, 8) == had.1
                    &&& le64(r.writes[0].1, 16) == had.2
                } else {
                    answers(r, 0)
                }
                &&& after.tasks@.running() is Some
                &&& after.task().id == before.task().id
                &&& forall|i: int|
                    0 <= i < 32 ==> #[trigger] after.task().sig_handlers@[i] == if i == s && a.a1 != 0 {
                        (le64(act, 0), le64(act, 8), le64(act, 16))
                    } else {
                        before.task().sig_handlers@[i]
                    }
            }
        }),
{
    let s = a.a0 as int;
    if 0 < s < 32 && a.a2 != 0 {
        let had = before.task().sig_handlers@[s];
        let b = handler_bytes(had);
        assert(b.subrange(0, 8) =~= bytes64(had.0));
        assert(b.subrange(8, 16) =~= bytes64(had.1));
        assert(b.subrange(16, 24) =~= bytes64(had.2));
        lemma_le64_of_bytes64(b, 0, had.0);
        lemma_le64_of_bytes64(b, 8, had.1);
        lemma_le64_of_bytes64(b, 16, had.2);
    }
}

/// Returning from a signal handler (15) goes on with the registers that were
/// kept when it was called.
pub proof fn law_signal_return(before: Kernel, after: Kernel, a: Args, m: Machine, p: Seq<Seq<u8>>, r: ReplyV)
    requires
        before.wf(),
        call_done(before, after, 15, a, m, p, r),
        before.task().sig_saved_ctx is Some,
    ensures
        only_task_table(before, after),
        r.next == NextV::Restore(before.task().sig_saved_ctx->0),
        after.tasks@.running() matches Some(t) && t.sig_saved_ctx is None && t.sig_delivering is None && t.id
            == before.task().id && t.state == before.task().state,
{
}

/// The thread pointer that has been set (158, 0x1002) is loaded, and is the
/// one that asking (158, 0x1003) tells.
pub proof fn law_thread_pointer(before: Kernel, after: Kernel, a: Args, m: Machine, p: Seq<Seq<u8>>, r: ReplyV)
    requires
        before.wf(),
        call_done(before, after, 158, a, m, p, r),
    ensures
        only_task_table(before, after),
        a.a0 == 0x1002 ==> r.value == 0 && r.next == NextV::LoadFs(a.a1) && (after.tasks@.running() matches Some(t)
            && t.fs_base == a.a1),
        a.a0 == 0x1003 ==> delivers(r, 0, a.a1, r.writes[0].1) && le64(r.writes[0].1, 0) == before.task().fs_base
            && after.tasks@ == before.tasks@,
        a.a0 != 0x1002 && a.a0 != 0x1003 ==> refused(r, 22) && after.tasks@ == before.tasks@,
{
    let b = bytes64(before.task().fs_base);
    assert(b.subrange(0, 8) =~= b);
    lemma_le64_of_bytes64(b, 0, before.task().fs_base);
}

// ---- Faults and signals ----

/// A page fault in a program that cannot be mended calls the program's
/// handler for signal 11: with 11 as its argument, on the program's stack
/// below what the program may be using, aligned as behind a call, with the
/// way back as its return address. Every register that it had is kept for its
/// return. It is called only if the program gave a handler with a way back
/// (bit 26 of its flags) and is not handling a signal already.
pub proof fn law_fault_signal(
    before: Kernel,
    after: Kernel,
    frame: PfFrame,
    after_frame: PfFrame,
    addr: u64,
    r: FaultAction,
)
    requires
        before.wf(),
        page_fault_done(before, after, frame, after_frame, addr, r),
    ensures
        match r {
            FaultAction::Retry => after_frame == frame && after.tasks@ == before.tasks@ && frame.error_code & 1 == 0,
            FaultAction::Unhandled => after_frame == frame && after.tasks@ == before.tasks@,
            FaultAction::Signal(at, word) => {
                let had = before.task();
                let h = had.sig_handlers@[11];
                &&& frame.cs & 3 == 3
                &&& had.sig_delivering is None
                &&& h.0 > 1 && h.2 != 0 && h.1 & 0x0400_0000 != 0
                &&& word == h.2
                &&& after_frame.rip == h.0
                &&& after_frame.rdi == 11
                &&& after_frame.rsp == at
                &&& frame.rsp >= 0x1000 ==> at % 16 == 8 && at + 8 + 496 <= frame.rsp && frame.rsp <= at + 8 + 528
                &&& after_frame.rax == frame.rax && after_frame.rsi == frame.rsi && after_frame.rdx == frame.rdx
                &&& after_frame.cs == frame.cs && after_frame.ss == frame.ss && after_frame.rflags == frame.rflags
                &&& after.tasks@.running() matches Some(t) && t.sig_delivering == Some(11u8) && (
                t.sig_saved_ctx matches Some(c) && keeps(c, frame))
            },
        },
{
}

/// All registers of a frame.
pub open spec fn keeps(c: SavedContext, f: PfFrame) -> bool {
    &&& c.rip == f.rip && c.rsp == f.rsp && c.rflags == f.rflags && c.cs == f.cs && c.ss == f.ss
    &&& c.rax == f.rax && c.rbx == f.rbx && c.rcx == f.rcx && c.rdx == f.rdx
    &&& c.rsi == f.rsi && c.rdi == f.rdi && c.rbp == f.rbp
    &&& c.r8 == f.r8 && c.r9 == f.r9 && c.r10 == f.r10 && c.r11 == f.r11
    &&& c.r12 == f.r12 && c.r13 == f.r13 && c.r14 == f.r14 && c.r15 == f.r15
}

/// A program that takes the signal gets it for every fault that cannot be
/// mended, and returning from its handler gives back every register that it
/// had at the fault.
pub proof fn law_fault_and_return(
    k0: Kernel,
    k1: Kernel,
    k2: Kernel,
    frame: PfFrame,
    handled: PfFrame,
    addr: u64,
    r: FaultAction,
    a: Args,
    m: Machine,
    p: Seq<Seq<u8>>,
    back: ReplyV,
)
    requires
        k0.wf(),
        k1.wf(),
        page_fault_done(k0, k1, frame, handled, addr, r),
        frame.cs & 3 == 3,
        k0.task().sig_delivering is None,
        k0.task().sig_handlers@[11].0 > 1,
        k0.task().sig_handlers@[11].1 & 0x0400_0000 != 0,
        k0.task().sig_handlers@[11].2 != 0,
        r != FaultAction::Retry,
        call_done(k1, k2, 15, a, m, p, back),
    ensures
        r is Signal,
        back.next matches NextV::Restore(c) && keeps(c, frame),
        k2.tasks@.running() matches Some(t) && t.sig_delivering is None,
{
    law_fault_signal(k0, k1, frame, handled, addr, r);
    law_signal_return(k1, k2, a, m, p, back);
}

// ---- Waiting ----

/// How many of the first `n` tasks slept at an address and do no longer.
pub open spec fn roused_among(before: Seq<Option<Task>>, after: Seq<Option<Task>>, addr: u64, n: int) -> int
    decreases n,
{
    if n <= 0 {
        0
    } else {
        roused_among(before, after, addr, n - 1) + if sleeps_at(before[n - 1], addr) && !sleeps_at(after[n - 1], addr) {
            1int
        } else {
            0
        }
    }
}

proof fn lemma_roused(slots: Seq<Option<Task>>, addr: u64, max: int, n: int)
    requires
        slots.len() == 16,
        0 <= n <= 16,
        0 <= max,
    ensures
        ({
            let after = crate::task::woken(slots, addr, max, 16);
            let all = crate::task::waiters(slots, addr, n) as int;
            roused_among(slots, after, addr, n) == if all <= max {
                all
            } else {
                max
            }
        }),
    decreases n,
{
    if n > 0 {
        lemma_roused(slots, addr, max, n - 1);
    }
}

proof fn lemma_few_waiters(slots: Seq<Option<Task>>, addr: u64, n: int, m: int)
    requires
        0 <= n <= m,
    ensures
        crate::task::waiters(slots, addr, n) <= crate::task::waiters(slots, addr, m),
    decreases m - n,
{
    if n < m {
        lemma_few_waiters(slots, addr, n, m - 1);
    }
}

/// Waking (202, operation 1) wakes tasks that sleep at the address and no
/// others, no more than asked for, and all of them if fewer; it answers how
/// many.
#[verifier::spinoff_prover]
#[verifier::rlimit(60)]
pub proof fn law_wake(before: Kernel, after: Kernel, a: Args, m: Machine, p: Seq<Seq<u8>>, r: ReplyV)
    requires
        before.wf(),
        a.a1 == 1 || a.a1 == 129,
        call_done(before, after, 202, a, m, p, r),
    ensures
        ({
            let max = (a.a2 % 0x1_0000_0000) as int;
            let old_slots = before.tasks@.slots;
            let slots = after.tasks@.slots;
            let count = roused_among(old_slots, slots, a.a0, 16);
            &&& only_task_table(before, after)
            &&& answers(r, count)
            &&& count <= max
            &&& after.tasks@.current == before.tasks@.current
            &&& forall|j: int|
                0 <= j < 16 ==> #[trigger] slots[j] == old_slots[j] || sleeps_at(old_slots[j], a.a0) && awake(
                    slots[j],
                    old_slots[j],
                )
            &&& count < max ==> forall|j: int| 0 <= j < 16 ==> !sleeps_at(#[trigger] slots[j], a.a0)
        }),
{
    let op = a.a1;
    assert(1u64 & 0xFFFF_FFFF_FFFF_FE7F == 1 && 129u64 & 0xFFFF_FFFF_FFFF_FE7F == 1 && 1u64 & 0x100 == 0 && 129u64
        & 0x100 == 0) by (bit_vector);
    let max = (a.a2 % 0x1_0000_0000) as int;
    let slots = before.tasks@.slots;
    lemma_roused(slots, a.a0, max, 16);
    assert(crate::linux_tasks::futex_command(op) == 1);
    assert(after.tasks@.slots == crate::task::woken(slots, a.a0, max, 16));
    if roused_among(slots, after.tasks@.slots, a.a0, 16) < max {
        assert forall|j: int| 0 <= j < 16 implies !sleeps_at(#[trigger] after.tasks@.slots[j], a.a0) by {
            lemma_few_waiters(slots, a.a0, j, 16);
        }
    }
}

/// Waiting (202, operation 0) without a time limit: the task sleeps at the
/// address if the word there is the one it expects, and is refused at once if
/// it is not, so that no change of the word goes unnoticed.
#[verifier::spinoff_prover]
#[verifier::rlimit(60)]
pub proof fn law_wait(before: Kernel, after: Kernel, a: Args, m: Machine, p: Seq<Seq<u8>>, r: ReplyV)
    requires
        before.wf(),
        a.a1 == 0 || a.a1 == 128,
        a.a3 == 0,
        piece(p, 0).len() >= 4,
        call_done(before, after, 202, a, m, p, r),
    ensures
        only_task_table(before, after),
        a.a0 % 4 != 0 ==> refused(r, 22) && after.tasks@ == before.tasks@,
        a.a0 % 4 == 0 && le32(piece(p, 0), 0) != a.a2 % 0x1_0000_0000 ==> refused(r, 11) && after.tasks@
            == before.tasks@,
        a.a0 % 4 == 0 && le32(piece(p, 0), 0) == a.a2 % 0x1_0000_0000 ==> {
            &&& r.next == NextV::Wait
            &&& sleeps_at(after.tasks@.running(), a.a0)
            &&& (after.tasks@.running()->0).wait_deadline is None
            &&& (after.tasks@.running()->0).id == before.task().id
            &&& forall|j: int|
                0 <= j < 16 && j != before.tasks@.current ==> #[trigger] after.tasks@.slots[j]
                    == before.tasks@.slots[j]
        },
        crate::linux_syscall::wanted(202, a, 0) == if a.a0 % 4 == 0 {
            crate::linux_syscall::WantV::Ranges(seq![(a.a0, 4u64)])
        } else {
            crate::linux_syscall::WantV::Nothing
        },
{
    assert(0u64 & 0xFFFF_FFFF_FFFF_FE7F == 0 && 128u64 & 0xFFFF_FFFF_FFFF_FE7F == 0 && 0u64 & 0x100 == 0 && 128u64
        & 0x100 == 0) by (bit_vector);
    assert(crate::linux_tasks::futex_command(a.a1) == 0);
}

/// Sleeping (35) for a time given as seconds and nanoseconds: the task sleeps
/// until a tick, a hundredth of a second each, that is no sooner than that
/// time from now and at most two ticks later.
#[verifier::spinoff_prover]
#[verifier::rlimit(60)]
pub proof fn law_sleep(before: Kernel, after: Kernel, a: Args, m: Machine, p: Seq<Seq<u8>>, r: ReplyV)
    requires
        before.wf(),
        a.a0 != 0,
        a.a0 + 16 <= u64::MAX,
        piece(p, 0).len() >= 16,
        le64(piece(p, 0), 0) <= 1_000_000_000_000,
        le64(piece(p, 0), 8) < 1_000_000_000,
        le64(piece(p, 0), 0) > 0 || le64(piece(p, 0), 8) > 0,
        m.now <= 1_000_000_000_000_000,
        call_done(before, after, 35, a, m, p, r),
    ensures
        only_task_table(before, after),
        r.next == NextV::Sleep,
        ({
            let time = le64(piece(p, 0), 0) * 1_000_000_000 + le64(piece(p, 0), 8);
            after.tasks@.running() matches Some(t) && t.state == TaskState::Blocked && t.futex_addr is None && (
            t.wait_deadline matches Some(end) && (end - m.now) * 10_000_000 >= time && (end - m.now) * 10_000_000 < time
                + 20_000_000)
        }),
{
}

// ---- Memory ----

/// Mapping memory without a file (9, bit 5 of the flags): every byte that was
/// asked for is mapped with the protection asked for, at the address that is
/// answered, and reads as zeros once it is touched; a fixed place (bit 4) is
/// the place asked for.
pub proof fn law_mmap(before: Kernel, after: Kernel, a: Args, m: Machine, p: Seq<Seq<u8>>, r: ReplyV, x: u64)
    requires
        before.wf(),
        a.a3 & 0x20 != 0,
        call_done(before, after, 9, a, m, p, r),
        r.value < 0x8000_0000_0000,
    ensures
        ({
            let start = r.value;
            &&& answers(r, start as int)
            &&& after.tasks == before.tasks
            &&& start % 4096 == 0 && 4096 <= start && start + a.a1 <= 0x8000_0000_0000
            &&& a.a3 & 0x10 != 0 ==> start == a.a0
            &&& start <= x < start + a.a1 ==> (mapping_at(after.regions@, before.space(), x) matches Some(
                (prot, _, backing, _),
            ) && prot == a.a2 && backing is None)
            &&& x < start || start + a.a1 + 4095 <= x ==> mapping_at(after.regions@, before.space(), x) == mapping_at(
                before.regions@,
                before.space(),
                x,
            )
        }),
{
    lemma_mmap(before, after, a, m, r, x);
}

#[verifier::spinoff_prover]
#[verifier::rlimit(40)]
proof fn lemma_mmap(before: Kernel, after: Kernel, a: Args, m: Machine, r: ReplyV, x: u64)
    requires
        before.wf(),
        a.a3 & 0x20 != 0,
        crate::linux_tasks::mmap_done(before, after, a.a0, a.a1, a.a2, a.a3, a.a4, m.frame@[5], r),
        r.value < 0x8000_0000_0000,
    ensures
        ({
            let start = r.value;
            &&& answers(r, start as int)
            &&& after.tasks == before.tasks
            &&& start % 4096 == 0 && 4096 <= start && start + a.a1 <= 0x8000_0000_0000
            &&& a.a3 & 0x10 != 0 ==> start == a.a0
            &&& start <= x < start + a.a1 ==> (mapping_at(after.regions@, before.space(), x) matches Some(
                (prot, _, backing, _),
            ) && prot == a.a2 && backing is None)
            &&& x < start || start + a.a1 + 4095 <= x ==> mapping_at(after.regions@, before.space(), x) == mapping_at(
                before.regions@,
                before.space(),
                x,
            )
        }),
{
    let (t1, m1, res) = crate::vm::mapping(
        before.regions@,
        before.mem@,
        before.space(),
        a.a0,
        a.a1,
        a.a2,
        a.a3,
        None,
        m.frame@[5],
    );
    crate::mmu::law_mapping_answers(
        before.regions@,
        before.mem@,
        before.space(),
        a.a0,
        a.a1,
        a.a2,
        a.a3,
        None,
        m.frame@[5],
    );
    if res is Ok {
        crate::mmu::law_mapped_bytes(
            before.regions@,
            before.mem@,
            before.space(),
            a.a0,
            a.a1,
            a.a2,
            a.a3,
            None,
            m.frame@[5],
            x,
        );
    }
}

/// Unmapping (11) that succeeds leaves none of the bytes mapped and no page
/// for any of them; what is more than a page away is as it was.
pub proof fn law_munmap(before: Kernel, after: Kernel, a: Args, m: Machine, p: Seq<Seq<u8>>, r: ReplyV, x: u64)
    requires
        before.wf(),
        call_done(before, after, 11, a, m, p, r),
        r.value == 0,
    ensures
        answers(r, 0),
        after.tasks == before.tasks,
        a.a0 <= x < a.a0 + a.a1 ==> mapping_at(after.regions@, before.space(), x) is None && page_entry(
            after.mem.ram@,
            before.space(),
            x,
        ) is None,
        x < a.a0 || a.a0 + a.a1 + 4095 <= x ==> mapping_at(after.regions@, before.space(), x) == mapping_at(
            before.regions@,
            before.space(),
            x,
        ),
{
    let res = crate::vm::unmapping(before.regions@, before.mem@, before.space(), a.a0, a.a1).2;
    crate::mmu::law_unmapping_answers(before.regions@, before.mem@, before.space(), a.a0, a.a1);
    if res is Ok {
        crate::mmu::law_unmapped_bytes(before.regions@, before.mem@, before.space(), a.a0, a.a1, x);
    }
}

/// Changing protection (10) that succeeds gives every page that is there an
/// entry that matches the protection, and everything mapped there the
/// protection for pages that come later.
pub proof fn law_mprotect(before: Kernel, after: Kernel, a: Args, m: Machine, p: Seq<Seq<u8>>, r: ReplyV, x: u64)
    requires
        before.wf(),
        call_done(before, after, 10, a, m, p, r),
        r.value == 0,
        a.a1 > 0,
        page_in(a.a0, a.a1, x),
        x < 0x8000_0000_0000,
    ensures
        answers(r, 0),
        page_entry(before.mem.ram@, before.space(), x) is Some ==> page_entry(after.mem.ram@, before.space(), x) is Some
            && entry_matches(page_entry(after.mem.ram@, before.space(), x)->0, a.a2, before.mem.nx),
        mapping_at(before.regions@, before.space(), x) is Some ==> (mapping_at(after.regions@, before.space(), x) matches Some(
            (prot, _, _, _),
        ) && prot == a.a2),
{
    let res = crate::vm::protecting(
        before.regions@,
        before.mem@,
        before.space(),
        before.mem.nx,
        a.a0,
        a.a1,
        a.a2,
    ).2;
    crate::mmu::law_protecting_answers(
        before.regions@,
        before.mem@,
        before.space(),
        before.mem.nx,
        a.a0,
        a.a1,
        a.a2,
    );
    crate::mmu::law_protected_pages(
        before.regions@,
        before.mem@,
        before.space(),
        before.mem.nx,
        a.a0,
        a.a1,
        a.a2,
        x,
    );
    crate::vm::law_protecting(
        before.regions@,
        before.mem@,
        before.space(),
        before.mem.nx,
        a.a0,
        a.a1,
        a.a2,
        before.space(),
        x,
    );
}

/// Moving the end of the heap (12): it never moves down, a request for where
/// it is or below is answered with where it is, and where it moves up every
/// page that it gained is the program's to write. It ends at the first page
/// end at or behind the request, or before, where memory ran out.
pub proof fn law_brk(before: Kernel, after: Kernel, a: Args, m: Machine, p: Seq<Seq<u8>>, r: ReplyV, x: u64)
    requires
        before.wf(),
        call_done(before, after, 12, a, m, p, r),
        before.task().heap_end % 4096 == 0,
        a.a0 <= 0x7FFF_FFFF_0000,
    ensures
        ({
            let had = before.task().heap_end;
            &&& answers(r, r.value as int)
            &&& after.tasks@.running() matches Some(t) && t.heap_end == r.value && t.id == before.task().id
            &&& after.regions == before.regions
            &&& after.fs == before.fs
            &&& had <= r.value
            &&& a.a0 <= had ==> r.value == had && after.mem@ == before.mem@
            &&& a.a0 > had ==> r.value < a.a0 + 4096 && r.value % 4096 == 0
            &&& had <= x < r.value ==> crate::program_laws::program_page(
                page_entry(after.mem.ram@, before.space(), x),
                true,
            )
            &&& x < had || r.value <= x < 0x8000_0000_0000 ==> page_entry(after.mem.ram@, before.space(), x)
                == page_entry(before.mem.ram@, before.space(), x)
        }),
{
    let had = before.task().heap_end;
    if a.a0 > had {
        lemma_grown(
            before.mem@,
            before.space(),
            had as int,
            crate::kernel::heap_goal(a.a0),
            x,
        );
    }
    crate::mmu::law_walks_agree(before.mem.ram@, before.space(), x);
    crate::mmu::law_walks_agree(after.mem.ram@, before.space(), x);
}

pub(crate) proof fn lemma_grown(s: Mem, a: u64, at: int, goal: int, x: u64)
    requires
        s.wf(),
        space_ok(s, a),
        0 <= at,
        at % 4096 == 0,
        goal % 4096 == 0,
        goal <= 0x8000_0000_0000,
    ensures
        ({
            let (s1, end) = grown(s, a, at, goal);
            &&& at <= end
            &&& at <= goal ==> end <= goal
            &&& end % 4096 == 0
            &&& at <= x < end ==> crate::program_laws::program_page(leaf_of(s1.ram, a, x), true)
            &&& x < at || end <= x < 0x8000_0000_0000 ==> leaf_of(s1.ram, a, x) == leaf_of(s.ram, a, x)
        }),
    decreases
        (if goal > at {
            goal - at
        } else {
            0
        }),
{
    if at < goal {
        assert((2u64 | 4u64) & 4 != 0 && (2u64 | 4u64) & 2 != 0 && (2u64 | 4u64) & 0x8000_0000_0000_0000 == 0 && (2u64
            | 4u64) & 0x000F_FFFF_FFFF_F000 == 0) by (bit_vector);
        let flags = crate::paging::PAGE_WRITABLE | crate::paging::PAGE_USER;
        let (s1, r) = placed(s, a, at as u64, flags, zero_page(), NO_HEAP);
        law_placed(s, a, at as u64, flags, zero_page(), NO_HEAP);
        if r is Ok {
            if x < 0x8000_0000_0000 {
                lemma_placed_entry(s, a, at as u64, flags, zero_page(), NO_HEAP, x);
                lemma_same_byte(at as u64, x);
            }
            lemma_grown(s1, a, at + 4096, goal, x);
        } else if s.frames.take().1 is Some {
            lemma_filled(s, a, zero_page());
        }
    }
}

// ---- What a program is told ----

/// A program's number (39, 186, 218) is that of its task; it is the first
/// user (102, 104, 107, 108).
pub proof fn law_who(before: Kernel, after: Kernel, number: u64, a: Args, m: Machine, p: Seq<Seq<u8>>, r: ReplyV)
    requires
        before.wf(),
        call_done(before, after, number, a, m, p, r),
    ensures
        number == 39 || number == 186 || number == 218 ==> after == before && answers(r, before.task().id as int),
        number == 102 || number == 104 || number == 107 || number == 108 ==> after == before && answers(r, 0),
        number == 24 ==> after == before && r.value == 0 && r.next == NextV::Yield,
{
}

/// The time (228) is told as seconds and nanoseconds since the start, of
/// which every tick is a hundredth of a second; with the clock's number one
/// of 0, 1 and 7. The older call (96) tells microseconds.
#[verifier::spinoff_prover]
#[verifier::rlimit(60)]
pub proof fn law_time(before: Kernel, after: Kernel, number: u64, a: Args, m: Machine, p: Seq<Seq<u8>>, r: ReplyV)
    requires
        before.wf(),
        number == 228 || number == 96,
        call_done(before, after, number, a, m, p, r),
    ensures
        after == before,
        number == 228 && a.a0 != 0 && a.a0 != 1 && a.a0 != 7 ==> refused(r, 22),
        number == 96 && a.a0 == 0 ==> answers(r, 0),
        number == 228 && (a.a0 == 0 || a.a0 == 1 || a.a0 == 7) ==> {
            &&& delivers(r, 0, a.a1, r.writes[0].1)
            &&& r.writes[0].1.len() == 16
            &&& le64(r.writes[0].1, 0) * 1_000_000_000 + le64(r.writes[0].1, 8) == m.now * 10_000_000
            &&& le64(r.writes[0].1, 8) < 1_000_000_000
        },
        number == 96 && a.a0 != 0 ==> {
            &&& delivers(r, 0, a.a0, r.writes[0].1)
            &&& r.writes[0].1.len() == 16
            &&& le64(r.writes[0].1, 0) * 1_000_000 + le64(r.writes[0].1, 8) == m.now * 10_000
            &&& le64(r.writes[0].1, 8) < 1_000_000
        },
{
    let s = (m.now / 100) as u64;
    let nanos = ((m.now % 100) * 10_000_000) as u64;
    let micros = ((m.now % 100) * 10_000) as u64;
    let b = bytes64(s) + bytes64(nanos);
    let c = bytes64(s) + bytes64(micros);
    assert(b.subrange(0, 8) =~= bytes64(s) && b.subrange(8, 16) =~= bytes64(nanos));
    assert(c.subrange(0, 8) =~= bytes64(s) && c.subrange(8, 16) =~= bytes64(micros));
    lemma_le64_of_bytes64(b, 0, s);
    lemma_le64_of_bytes64(b, 8, nanos);
    lemma_le64_of_bytes64(c, 0, s);
    lemma_le64_of_bytes64(c, 8, micros);
    assert(crate::linux_abi::time_bytes(m.now, 1_000_000_000) == b);
    assert(crate::linux_abi::time_bytes(m.now, 1_000_000) == c);
}

} // verus!
