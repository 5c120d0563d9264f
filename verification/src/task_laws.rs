//! What holds of tasks across operations: numbers stay distinct, one task
//! runs at a time and none is passed over for ever, address spaces live as
//! long as a task lives in them, and what is written to a file can be read
//! back.
use crate::paging::Mem;
use crate::pmm::Frames;
use crate::task::{
    admitted, blocked, copied, dead, eligible, expired, group_ended, next_slot, overdue, overwritten, readable,
    reaped, roused, scheduled, shared, waiters, waits_at, woken, ExtraV, OpenFile, OpenV, SavedContext, Task,
    TaskState, Tasks, MAX_TASKS,
};
use crate::vm::{law_without_space, mapping_at, table_ok, Table};
use crate::volume::{Image, Layout};
use vstd::prelude::*;

verus! {

/// No two tasks have the same number, and none has one that is still to be
/// given out.
pub open spec fn numbered(s: Tasks) -> bool {
    &&& forall|i: int| 0 <= i < s.slots.len() ==> (#[trigger] s.slots[i] matches Some(t) ==> t.id < s.next_id)
    &&& forall|i: int, j: int|
        0 <= i < j < s.slots.len() && s.slots[i] is Some && s.slots[j] is Some ==> (#[trigger] s.slots[i]->0).id != (
        #[trigger] s.slots[j]->0).id
}

/// Spawning keeps the numbers of tasks distinct.
pub proof fn law_numbers_stay_distinct(before: Tasks, after: Tasks, i: int, files: Option<usize>)
    requires
        before.wf(),
        numbered(before),
        before.next_id < u64::MAX,
        0 <= i < MAX_TASKS,
        before.slots[i] is None,
        admitted(before, after, i, files),
        (after.slots[i]->0).id == before.next_id,
    ensures
        numbered(after),
{
    assert forall|a: int, b: int|
        0 <= a < b < after.slots.len() && after.slots[a] is Some && after.slots[b] is Some implies (
    #[trigger] after.slots[a]->0).id != (#[trigger] after.slots[b]->0).id by {
        if a != i && b != i {
            assert(before.slots[a] == after.slots[a] && before.slots[b] == after.slots[b]);
        } else if a == i {
            assert(before.slots[b] == after.slots[b]);
        } else {
            assert(before.slots[a] == after.slots[a]);
        }
    }
}

/// How many slots after slot `a`, going round, slot `b` comes.
pub open spec fn distance(a: int, b: int) -> int {
    if b > a {
        b - a
    } else {
        b - a + MAX_TASKS
    }
}

proof fn lemma_next_slot(slots: Seq<Option<Task>>, current: int, offset: int)
    requires
        slots.len() == MAX_TASKS,
        0 <= current < MAX_TASKS,
        1 <= offset <= MAX_TASKS + 1,
    ensures
        0 <= next_slot(slots, current, offset) < MAX_TASKS,
        next_slot(slots, current, offset) != current ==> eligible(
            slots,
            current,
            next_slot(slots, current, offset),
        ) && distance(current, next_slot(slots, current, offset)) >= offset,
        forall|j: int|
            0 <= j < MAX_TASKS && j != current && #[trigger] eligible(slots, current, j) && distance(current, j)
                >= offset ==> next_slot(slots, current, offset) != current && distance(
                current,
                next_slot(slots, current, offset),
            ) <= distance(current, j),
    decreases MAX_TASKS + 1 - offset,
{
    if offset <= MAX_TASKS {
        let c = (current + offset) % MAX_TASKS as int;
        assert(c == if current + offset < MAX_TASKS {
            current + offset
        } else {
            current + offset - MAX_TASKS
        });
        if !eligible(slots, current, c) {
            lemma_next_slot(slots, current, offset + 1);
            assert forall|j: int|
                0 <= j < MAX_TASKS && j != current && #[trigger] eligible(slots, current, j) && distance(current, j)
                    >= offset implies next_slot(slots, current, offset) != current && distance(
                current,
                next_slot(slots, current, offset),
            ) <= distance(current, j) by {
                assert(j != c);
                assert(distance(current, j) >= offset + 1);
            }
        }
    }
}

/// No ready task is passed over for ever: whenever another task is chosen, a
/// ready one that was not chosen comes nearer in the round.
pub proof fn law_round_robin(slots: Seq<Option<Task>>, current: int, j: int)
    requires
        slots.len() == MAX_TASKS,
        0 <= current < MAX_TASKS,
        0 <= j < MAX_TASKS,
        j != current,
        slots[j] matches Some(t) && t.state == TaskState::Ready,
    ensures
        next_slot(slots, current, 1) != current,
        slots[next_slot(slots, current, 1)] matches Some(t) && t.state == TaskState::Ready,
        next_slot(slots, current, 1) != j ==> distance(next_slot(slots, current, 1), j) < distance(current, j),
{
    lemma_next_slot(slots, current, 1);
    assert(eligible(slots, current, j));
}

pub open spec fn is_running(t: Option<Task>) -> bool {
    t matches Some(x) && x.state == TaskState::Running
}

/// Only the current task is running.
pub open spec fn one_running(s: Tasks) -> bool {
    forall|i: int| 0 <= i < s.slots.len() && #[trigger] is_running(s.slots[i]) ==> i == s.current
}

proof fn lemma_reaped(
    slots: Seq<Option<Task>>,
    regions: Table,
    frames: Frames,
    ram: Seq<u64>,
    current: int,
    kernel: u64,
    n: int,
)
    requires
        slots.len() == MAX_TASKS,
        0 <= n <= MAX_TASKS,
    ensures
        ({
            let (s, _, f) = reaped(slots, regions, frames, ram, current, kernel, n);
            &&& s.len() == MAX_TASKS
            &&& f.used.len() == frames.used.len()
            &&& forall|i: int|
                0 <= i < MAX_TASKS ==> #[trigger] s[i] == if i < n && dead(slots, current, i) {
                    None
                } else {
                    slots[i]
                }
        }),
    decreases n,
{
    if n > 0 {
        lemma_reaped(slots, regions, frames, ram, current, kernel, n - 1);
    }
}

/// Scheduling leaves one task running, the one that it chose, and no dead task
/// but perhaps the one that it left.
pub proof fn law_one_task_runs(s: Tasks, regions: Table, mem: Mem, now: u64)
    requires
        s.wf(),
        one_running(s),
    ensures
        one_running(scheduled(s, regions, mem, now).0),
        forall|i: int|
            0 <= i < MAX_TASKS && i != s.current ==> !(#[trigger] scheduled(s, regions, mem, now).0.slots[i] matches Some(
                t,
            ) && t.state == TaskState::Terminated),
{
    let e = expired(s.slots, now);
    lemma_reaped(e, regions, mem.frames, mem.ram, s.current, s.kernel_cr3, MAX_TASKS as int);
    let (left, _, _) = reaped(e, regions, mem.frames, mem.ram, s.current, s.kernel_cr3, MAX_TASKS as int);
    lemma_next_slot(left, s.current, 1);
    let after = scheduled(s, regions, mem, now).0;
    assert forall|i: int| 0 <= i < MAX_TASKS && #[trigger] is_running(after.slots[i]) implies i
        == after.current by {
        assert(is_running(e[i]) ==> is_running(s.slots[i]));
        assert(left[i] is Some ==> left[i] == e[i]);
    }
    assert forall|i: int| 0 <= i < MAX_TASKS && i != s.current implies !(#[trigger] after.slots[i] matches Some(t)
        && t.state == TaskState::Terminated) by {
        assert(left[i] is Some ==> left[i] == e[i] && !dead(e, s.current, i));
    }
}

/// What becomes of a task that waits when tasks are scheduled: it waits on,
/// or its deadline has passed.
pub open spec fn waited(t: Task, after: Option<Task>, now: u64) -> bool {
    after matches Some(u) && if overdue(Some(t), now) {
        u.futex_timed_out && (u.state == TaskState::Ready || u.state == TaskState::Running)
    } else {
        u == t
    }
}

/// What scheduling does to each slot: a task whose wait is over is ready, one
/// that has ended is gone unless it is the current one, and one that was
/// chosen runs.
pub proof fn lemma_scheduled(s: Tasks, regions: Table, mem: Mem, now: u64)
    requires
        s.wf(),
    ensures
        ({
            let after = scheduled(s, regions, mem, now).0;
            &&& after.wf() || s.running() is None
            &&& after.next_id == s.next_id
            &&& s.running() is Some ==> after.running() is Some
            &&& forall|i: int|
                0 <= i < MAX_TASKS ==> (#[trigger] after.slots[i] matches Some(t) ==> s.slots[i] matches Some(u)
                    && t.id == u.id && t.name == u.name)
            &&& forall|i: int|
                0 <= i < MAX_TASKS && (s.slots[i] matches Some(u) && u.state == TaskState::Blocked) ==> waited(
                    s.slots[i]->0,
                    #[trigger] after.slots[i],
                    now,
                )
        }),
{
    let e = expired(s.slots, now);
    lemma_reaped(e, regions, mem.frames, mem.ram, s.current, s.kernel_cr3, MAX_TASKS as int);
    let (left, _, _) = reaped(e, regions, mem.frames, mem.ram, s.current, s.kernel_cr3, MAX_TASKS as int);
    lemma_next_slot(left, s.current, 1);
    let after = scheduled(s, regions, mem, now).0;
    assert forall|i: int| 0 <= i < MAX_TASKS implies (#[trigger] after.slots[i] matches Some(t)
        ==> s.slots[i] matches Some(u) && t.id == u.id && t.name == u.name && t.files == u.files && t.sig_handlers
        == u.sig_handlers) by {
        assert(left[i] is Some ==> left[i] == e[i]);
    }
    assert forall|i: int|
        0 <= i < MAX_TASKS && (s.slots[i] matches Some(u) && u.state == TaskState::Blocked) implies waited(
        s.slots[i]->0,
        #[trigger] after.slots[i],
        now,
    ) by {
        assert(left[i] == e[i]);
    }
}

/// A wait that is over by the time of scheduling ends there: the task is ready
/// or running and knows that it timed out.
pub proof fn law_waits_end(s: Tasks, regions: Table, mem: Mem, now: u64, i: int)
    requires
        s.wf(),
        0 <= i < MAX_TASKS,
        overdue(s.slots[i], now),
    ensures
        scheduled(s, regions, mem, now).0.slots[i] matches Some(t) && (t.state == TaskState::Ready || t.state
            == TaskState::Running) && t.futex_timed_out && t.wait_deadline is None && t.id == (s.slots[i]->0).id,
{
    let e = expired(s.slots, now);
    lemma_reaped(e, regions, mem.frames, mem.ram, s.current, s.kernel_cr3, MAX_TASKS as int);
    let (left, _, _) = reaped(e, regions, mem.frames, mem.ram, s.current, s.kernel_cr3, MAX_TASKS as int);
    lemma_next_slot(left, s.current, 1);
    assert(left[i] == e[i]);
}

/// A task that was killed is gone after the next round of scheduling, unless
/// it is the one that runs.
pub proof fn law_killed_tasks_go(s: Tasks, regions: Table, mem: Mem, now: u64, i: int)
    requires
        s.wf(),
        0 <= i < MAX_TASKS,
        i != s.current,
        s.slots[i] matches Some(t) && t.state == TaskState::Terminated,
    ensures
        scheduled(s, regions, mem, now).0.slots[i] is None,
{
    let e = expired(s.slots, now);
    lemma_reaped(e, regions, mem.frames, mem.ram, s.current, s.kernel_cr3, MAX_TASKS as int);
    let (left, _, _) = reaped(e, regions, mem.frames, mem.ram, s.current, s.kernel_cr3, MAX_TASKS as int);
    lemma_next_slot(left, s.current, 1);
    assert(e[i] == s.slots[i]);
    assert(left[i] is None);
}

proof fn lemma_space_kept(
    slots: Seq<Option<Task>>,
    regions: Table,
    frames: Frames,
    ram: Seq<u64>,
    current: int,
    kernel: u64,
    n: int,
    j: int,
    a: u64,
)
    requires
        slots.len() == MAX_TASKS,
        table_ok(regions),
        0 <= n <= MAX_TASKS,
        0 <= j < MAX_TASKS,
        slots[j] is Some,
        !dead(slots, current, j),
    ensures
        table_ok(reaped(slots, regions, frames, ram, current, kernel, n).1),
        mapping_at(reaped(slots, regions, frames, ram, current, kernel, n).1, (slots[j]->0).cr3, a) == mapping_at(
            regions,
            (slots[j]->0).cr3,
            a,
        ),
    decreases n,
{
    if n > 0 {
        lemma_space_kept(slots, regions, frames, ram, current, kernel, n - 1, j, a);
        lemma_reaped(slots, regions, frames, ram, current, kernel, n - 1);
        let (s, t, f) = reaped(slots, regions, frames, ram, current, kernel, n - 1);
        if dead(s, current, n - 1) {
            let cr3 = (s[n - 1]->0).cr3;
            if cr3 != kernel && !shared(s, n - 1, cr3) {
                law_without_space(t, cr3, (slots[j]->0).cr3, a);
                assert(s[n - 1] == slots[n - 1]);
                assert(s[j] == slots[j]);
                assert(j != n - 1);
                assert(cr3 != (slots[j]->0).cr3);
            }
        }
    }
}

/// An address space is torn down with its last task and not before: what is
/// mapped in the address space of any task that lives on stays mapped.
pub proof fn law_spaces_outlive_tasks(s: Tasks, regions: Table, mem: Mem, now: u64, j: int, a: u64)
    requires
        s.wf(),
        table_ok(regions),
        0 <= j < MAX_TASKS,
        s.slots[j] is Some,
        j == s.current || (s.slots[j]->0).state != TaskState::Terminated,
    ensures
        mapping_at(scheduled(s, regions, mem, now).1, (s.slots[j]->0).cr3, a) == mapping_at(
            regions,
            (s.slots[j]->0).cr3,
            a,
        ),
{
    let e = expired(s.slots, now);
    assert(e[j] is Some && (e[j]->0).cr3 == (s.slots[j]->0).cr3);
    lemma_space_kept(
        e,
        regions,
        mem.frames,
        mem.ram,
        s.current,
        s.kernel_cr3,
        MAX_TASKS as int,
        j,
        a,
    );
}

proof fn lemma_waiters(slots: Seq<Option<Task>>, addr: u64, n: int, m: int)
    requires
        0 <= n <= m <= slots.len(),
    ensures
        waiters(slots, addr, n) <= waiters(slots, addr, m),
        waiters(slots, addr, n) <= n,
    decreases m,
{
    if n > 0 {
        lemma_waiters(slots, addr, n - 1, n - 1);
    }
    if n < m {
        lemma_waiters(slots, addr, n, m - 1);
    }
}

/// Waking everyone at an address leaves no task waiting there; a task that
/// waits elsewhere is not disturbed.
pub proof fn law_wake_all(slots: Seq<Option<Task>>, addr: u64, i: int)
    requires
        slots.len() == MAX_TASKS,
        0 <= i < MAX_TASKS,
    ensures
        ({
            let after = woken(slots, addr, u32::MAX as int, MAX_TASKS as int)[i];
            &&& !waits_at(after, addr)
            &&& waits_at(slots[i], addr) ==> after == Some(roused(slots[i]->0))
            &&& !waits_at(slots[i], addr) ==> after == slots[i]
        }),
{
    lemma_waiters(slots, addr, i, i);
}

/// A task that starts to wait at an address is woken by a call that wakes one
/// task there, if no other task waits there.
pub proof fn law_wait_then_wake(s: Tasks, addr: u64, deadline: Option<u64>)
    requires
        s.wf(),
        s.running() is Some,
        forall|i: int| 0 <= i < MAX_TASKS && i != s.current ==> !waits_at(#[trigger] s.slots[i], addr),
    ensures
        woken(
            s.with(blocked(s.running()->0, Some(addr), deadline)).slots,
            addr,
            1,
            MAX_TASKS as int,
        )[s.current] == Some(roused(s.running()->0)),
{
    let w = s.with(blocked(s.running()->0, Some(addr), deadline)).slots;
    lemma_no_waiters(w, addr, s.current);
    assert(roused(w[s.current]->0) == roused(s.running()->0));
}

proof fn lemma_no_waiters(slots: Seq<Option<Task>>, addr: u64, n: int)
    requires
        0 <= n <= slots.len(),
        forall|i: int| 0 <= i < n ==> !waits_at(#[trigger] slots[i], addr),
    ensures
        waiters(slots, addr, n) == 0,
    decreases n,
{
    if n > 0 {
        lemma_no_waiters(slots, addr, n - 1);
    }
}

/// A signal handler's return gives back the registers that its delivery kept,
/// and leaves the task as it was before.
pub proof fn law_signal_round_trip(t: Task, sig: u8, ctx: SavedContext)
    requires
        t.sig_delivering is None,
        t.sig_saved_ctx is None,
    ensures
        ({
            let handling = Task { sig_delivering: Some(sig), sig_saved_ctx: Some(ctx), ..t };
            &&& handling.sig_saved_ctx == Some(ctx)
            &&& Task { sig_delivering: None, sig_saved_ctx: None, ..handling } == t
        }),
{
}

/// Ending a program ends all of its tasks but the one that asks for it.
pub proof fn law_group_ends(slots: Seq<Option<Task>>, cr3: u64, except: u64, i: int)
    requires
        0 <= i < slots.len(),
    ensures
        group_ended(slots, cr3, except)[i] matches Some(t) && t.cr3 == cr3 && t.id != except ==> (group_ended(
            slots,
            cr3,
            except,
        )[i]->0).state == TaskState::Terminated,
        (slots[i] matches Some(t) ==> t.cr3 != cr3 || t.id == except) ==> group_ended(slots, cr3, except)[i]
            == slots[i],
{
}

/// What is written to a file can be read back from where it was written.
pub proof fn law_file_write_then_read(
    f: OpenV,
    bytes: Seq<u8>,
    offset: usize,
    d: Image,
    layout: Option<Layout>,
    out: Seq<u8>,
)
    requires
        f.extra matches Some(ExtraV::Writable(_, _)),
        out.len() == bytes.len(),
    ensures
        ({
            let (g, n) = OpenFile::write_result(f, bytes, Some(offset));
            let (h, back, m) = OpenFile::read_result(g, d, layout, out, Some(offset));
            &&& n == Ok::<int, i64>(bytes.len() as int)
            &&& m == Ok::<int, i64>(bytes.len() as int)
            &&& back == bytes
            &&& g.pos == f.pos
            &&& h == g
        }),
{
    let (g, n) = OpenFile::write_result(f, bytes, Some(offset));
    let buf = f.extra->0->Writable_1;
    let all = overwritten(buf, offset as int, bytes);
    assert(readable(all.len() as int, offset as int, out.len() as int) == bytes.len());
    assert(copied(all, offset as int, out) =~= bytes);
}

/// A write leaves every byte of a file outside of what it writes as it was.
pub proof fn law_file_write_elsewhere(buf: Seq<u8>, start: int, bytes: Seq<u8>, i: int)
    requires
        0 <= start,
        0 <= i < buf.len(),
        !(start <= i < start + bytes.len()),
    ensures
        overwritten(buf, start, bytes)[i] == buf[i],
{
}

/// Waking tasks removes none, and the running task stays the running task.
pub proof fn lemma_woken_running(s: Tasks, addr: u64, max: int)
    requires
        s.wf(),
        s.running() is Some,
    ensures
        (Tasks { slots: woken(s.slots, addr, max, MAX_TASKS as int), ..s }).running() is Some,
{
}

} // verus!
