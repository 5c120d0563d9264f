//! What holds of the table of tasks through any course of events.
use crate::paging::Mem;
use crate::task::{
    admitted, blocked, ended, free_slot, group_ended, lemma_free_slot, lemma_free_table, listing, living, scheduled,
    wait_state, woken, Task, TaskState, Tasks, WaitState, MAX_TASKS,
};
use crate::task_laws::{
    is_running, law_numbers_stay_distinct, law_one_task_runs, lemma_scheduled, numbered, one_running,
};
use crate::vm::Table;
use vstd::prelude::*;

verus! {

/// What can happen to the table of tasks.
pub ghost enum Event {
    Spawn(Option<usize>),
    Kill(u64),
    KillGroup(u64, u64),
    Exit,
    Wait(Option<u64>, Option<u64>),
    WaitStep,
    Wake(u64, u32),
    Schedule(Table, Mem, u64),
}

/// One more task was asked for: it is in the first free slot under the next
/// number, ready and not run yet, or there is no free slot.
pub open spec fn spawn_done(before: Tasks, after: Tasks, files: Option<usize>) -> bool {
    match free_slot(before.slots, 0) {
        None => after == before,
        Some(i) => {
            let t = after.slots[i]->0;
            &&& admitted(before, after, i, files)
            &&& t.id == before.next_id
            &&& t.state == TaskState::Ready
            &&& t.ticks_run == 0
            &&& t.sig_handlers@.len() == 32
            &&& files matches Some(k) ==> k < MAX_TASKS
        },
    }
}

/// Whether an event leads from one table to another.
pub open spec fn happened(before: Tasks, e: Event, after: Tasks) -> bool {
    match e {
        Event::Spawn(files) => spawn_done(before, after, files),
        Event::Kill(id) => after == match living(before.slots, id, 0) {
            None => before,
            Some(i) => Tasks { slots: before.slots.update(i, Some(ended(before.slots[i]->0))), ..before },
        },
        Event::KillGroup(cr3, except) => after == (Tasks {
            slots: group_ended(before.slots, cr3, except),
            ..before
        }),
        Event::Exit => after == match before.running() {
            None => before,
            Some(t) => {
                let left = before.with(Task { child_tidptr: None, ..ended(t) });
                match t.child_tidptr {
                    None => left,
                    Some(p) => Tasks { slots: woken(left.slots, p, u32::MAX as int, MAX_TASKS as int), ..left },
                }
            },
        },
        Event::Wait(addr, deadline) => after == match before.running() {
            Some(t) => before.with(blocked(t, addr, deadline)),
            None => before,
        },
        Event::WaitStep => after == match before.running() {
            Some(t) => if wait_state(t) == WaitState::Expired {
                before.with(Task { futex_timed_out: false, ..t })
            } else {
                before
            },
            None => before,
        },
        Event::Wake(addr, max) => after == (Tasks {
            slots: woken(before.slots, addr, max as int, MAX_TASKS as int),
            ..before
        }),
        Event::Schedule(regions, mem, now) => after == scheduled(before, regions, mem, now).0,
    }
}

/// The table is in order: no two tasks have the same number, and the current
/// slot has a task, which is the only one that may be running.
pub open spec fn tidy(s: Tasks) -> bool {
    s.wf() && numbered(s) && one_running(s) && s.running() is Some
}

/// Slot by slot, the same tasks, whatever has become of them; none that was
/// not running is.
spec fn same_tasks(before: Tasks, after: Tasks) -> bool {
    &&& after.slots.len() == before.slots.len()
    &&& after.current == before.current
    &&& after.next_id == before.next_id
    &&& after.files == before.files
    &&& forall|i: int|
        0 <= i < before.slots.len() ==> {
            &&& (#[trigger] after.slots[i]) is Some == before.slots[i] is Some
            &&& after.slots[i] matches Some(t) ==> {
                let u = before.slots[i]->0;
                &&& t.id == u.id
                &&& t.files == u.files
                &&& t.sig_handlers == u.sig_handlers
                &&& t.state == TaskState::Running ==> u.state == TaskState::Running
            }
        }
}

proof fn lemma_same_tasks(before: Tasks, after: Tasks)
    requires
        tidy(before),
        same_tasks(before, after),
    ensures
        tidy(after),
{
    assert(after.slots[before.current] is Some);
    assert forall|i: int| 0 <= i < MAX_TASKS implies (#[trigger] after.slots[i] matches Some(t) ==> t.files < MAX_TASKS
        && t.sig_handlers@.len() == 32 && t.id < after.next_id) by {
        assert(before.slots[i] is Some == after.slots[i] is Some);
    }
    assert forall|i: int, j: int|
        0 <= i < j < after.slots.len() && after.slots[i] is Some && after.slots[j] is Some implies (
    #[trigger] after.slots[i]->0).id != (#[trigger] after.slots[j]->0).id by {
        assert((before.slots[i]->0).id != (before.slots[j]->0).id);
    }
    assert forall|i: int| 0 <= i < after.slots.len() && #[trigger] is_running(after.slots[i]) implies i
        == after.current by {
        assert(is_running(before.slots[i]));
    }
}

proof fn lemma_living(slots: Seq<Option<Task>>, id: u64, from: int)
    requires
        0 <= from,
    ensures
        living(slots, id, from) matches Some(i) ==> from <= i < slots.len() && slots[i] is Some,
    decreases slots.len() - from,
{
    if from < slots.len() {
        lemma_living(slots, id, from + 1);
    }
}

/// Whatever happens, the table stays in order and numbers only rise.
pub proof fn law_tables_stay_tidy(before: Tasks, e: Event, after: Tasks)
    requires
        tidy(before),
        before.next_id < u64::MAX,
        happened(before, e, after),
    ensures
        tidy(after),
        after.next_id >= before.next_id,
{
    match e {
        Event::Spawn(files) => {
            lemma_free_slot(before.slots, 0);
            if let Some(i) = free_slot(before.slots, 0) {
                law_numbers_stay_distinct(before, after, i, files);
                if files is None {
                    lemma_free_table(before.slots, 0);
                }
                assert(after.wf()) by {
                    assert forall|j: int| 0 <= j < MAX_TASKS implies (#[trigger] after.slots[j] matches Some(t)
                        ==> t.files < MAX_TASKS && t.sig_handlers@.len() == 32) by {
                        if j != i {
                            assert(after.slots[j] == before.slots[j]);
                        }
                    }
                }
                assert forall|j: int| 0 <= j < after.slots.len() && #[trigger] is_running(after.slots[j]) implies j
                    == after.current by {
                    assert(j != i ==> is_running(before.slots[j]));
                }
            }
        },
        Event::Kill(id) => {
            lemma_living(before.slots, id, 0);
            lemma_same_tasks(before, after);
        },
        Event::Schedule(regions, mem, now) => {
            law_one_task_runs(before, regions, mem, now);
            lemma_scheduled(before, regions, mem, now);
            assert forall|i: int, j: int|
                0 <= i < j < after.slots.len() && after.slots[i] is Some && after.slots[j] is Some implies (
            #[trigger] after.slots[i]->0).id != (#[trigger] after.slots[j]->0).id by {
                assert((before.slots[i]->0).id != (before.slots[j]->0).id);
            }
        },
        _ => {
            lemma_same_tasks(before, after);
        },
    }
}

/// Whether event `k` leads from one table to the next, with a number left to
/// give out.
pub open spec fn follows(tables: Seq<Tasks>, events: Seq<Event>, k: int) -> bool {
    happened(tables[k], events[k], tables[k + 1]) && tables[k].next_id < u64::MAX
}

/// Whether each of some events leads from one table to the next.
pub open spec fn history(tables: Seq<Tasks>, events: Seq<Event>) -> bool {
    tables.len() == events.len() + 1 && forall|k: int|
        0 <= k < events.len() ==> #[trigger] follows(tables, events, k)
}

/// From a table in order, any course of spawning, killing, waiting, waking
/// and scheduling leads to tables in order, and a number that was given out
/// is never given out again.
pub proof fn law_histories_stay_tidy(tables: Seq<Tasks>, events: Seq<Event>, j: int, k: int)
    requires
        history(tables, events),
        tidy(tables[0]),
        0 <= j <= k < tables.len(),
    ensures
        tidy(tables[k]),
        tables[j].next_id <= tables[k].next_id,
    decreases k,
{
    if k > 0 {
        law_histories_stay_tidy(tables, events, if j < k { j } else { 0 }, k - 1);
        assert(follows(tables, events, k - 1));
        law_tables_stay_tidy(tables[k - 1], events[k - 1], tables[k]);
    }
}

/// The table that a system starts with is in order.
pub proof fn law_first_table_is_tidy(s: Tasks)
    requires
        s.wf(),
        s.current == 0,
        forall|i: int| 1 <= i < MAX_TASKS ==> #[trigger] s.slots[i] is None,
        s.slots[0] matches Some(t) && t.id < s.next_id,
    ensures
        tidy(s),
{
}

// ---- The list of tasks ----

/// What the list says of a slot's task.
pub open spec fn row(s: Tasks, i: int) -> (u64, &'static str, TaskState, u64, bool) {
    let t = s.slots[i]->0;
    (t.id, t.name, t.state, t.ticks_run, i == s.current)
}

/// The slot of the `k`th row of the list of the first `n` slots.
pub open spec fn slot_of(s: Tasks, n: int, k: int) -> int
    decreases n,
{
    if n <= 0 {
        0
    } else if s.slots[n - 1] is Some && k == listing(s, n - 1).len() {
        n - 1
    } else {
        slot_of(s, n - 1, k)
    }
}

proof fn lemma_rows(s: Tasks, n: int)
    requires
        s.wf(),
        0 <= n <= MAX_TASKS,
    ensures
        listing(s, n).len() <= n,
        forall|k: int|
            0 <= k < listing(s, n).len() ==> 0 <= #[trigger] slot_of(s, n, k) < n && s.slots[slot_of(s, n, k)] is Some
                && listing(s, n)[k] == row(s, slot_of(s, n, k)),
        forall|k: int, l: int|
            0 <= k < l < listing(s, n).len() ==> #[trigger] slot_of(s, n, k) < #[trigger] slot_of(s, n, l),
        forall|i: int|
            0 <= i < n && (#[trigger] s.slots[i]) is Some ==> listing(s, n).contains(row(s, i)),
    decreases n,
{
    if n > 0 {
        lemma_rows(s, n - 1);
        let a = listing(s, n - 1);
        let b = listing(s, n);
        assert forall|i: int| 0 <= i < n && (#[trigger] s.slots[i]) is Some implies b.contains(row(s, i)) by {
            if i < n - 1 {
                let k = choose|k: int| 0 <= k < a.len() && a[k] == row(s, i);
                assert(b[k] == row(s, i));
            } else {
                assert(b[b.len() - 1] == row(s, i));
            }
        }
        assert forall|k: int|
            0 <= k < b.len() implies 0 <= #[trigger] slot_of(s, n, k) < n && s.slots[slot_of(s, n, k)] is Some && b[k]
            == row(s, slot_of(s, n, k)) by {
            if k < a.len() {
                assert(slot_of(s, n, k) == slot_of(s, n - 1, k));
            }
        }
        assert forall|k: int, l: int| 0 <= k < l < b.len() implies #[trigger] slot_of(s, n, k) < #[trigger] slot_of(
            s,
            n,
            l,
        ) by {
            assert(slot_of(s, n, k) == slot_of(s, n - 1, k));
            if l < a.len() {
                assert(slot_of(s, n, l) == slot_of(s, n - 1, l));
            }
        }
    }
}

/// The list has a row for each task, in the order of their slots, with
/// numbers that differ. Just one of them is the current one, and none but
/// that one may be running.
pub proof fn law_list(s: Tasks)
    requires
        tidy(s),
    ensures
        ({
            let rows = listing(s, MAX_TASKS as int);
            &&& rows.len() <= MAX_TASKS
            &&& forall|i: int| 0 <= i < MAX_TASKS && (#[trigger] s.slots[i]) is Some ==> rows.contains(row(s, i))
            &&& forall|k: int|
                0 <= k < rows.len() ==> 0 <= #[trigger] slot_of(s, MAX_TASKS as int, k) < MAX_TASKS && rows[k] == row(
                    s,
                    slot_of(s, MAX_TASKS as int, k),
                ) && s.slots[slot_of(s, MAX_TASKS as int, k)] is Some
            &&& forall|k: int, l: int|
                0 <= k < l < rows.len() ==> #[trigger] slot_of(s, MAX_TASKS as int, k) < #[trigger] slot_of(
                    s,
                    MAX_TASKS as int,
                    l,
                )
            &&& forall|k: int, l: int| 0 <= k < l < rows.len() ==> (#[trigger] rows[k]).0 != (#[trigger] rows[l]).0
            &&& exists|k: int|
                0 <= k < rows.len() && (#[trigger] rows[k]).4 && rows[k].0 == (s.running()->0).id && forall|l: int|
                    0 <= l < rows.len() && (#[trigger] rows[l]).4 ==> l == k
            &&& forall|k: int| 0 <= k < rows.len() && (#[trigger] rows[k]).2 == TaskState::Running ==> rows[k].4
        }),
{
    let n = MAX_TASKS as int;
    lemma_rows(s, n);
    let rows = listing(s, n);
    assert forall|k: int, l: int| 0 <= k < l < rows.len() implies (#[trigger] rows[k]).0 != (#[trigger] rows[l]).0 by {
        let i = slot_of(s, n, k);
        let j = slot_of(s, n, l);
        assert(i < j);
        assert((s.slots[i]->0).id != (s.slots[j]->0).id);
    }
    assert(s.slots[s.current] is Some);
    let k = choose|k: int| 0 <= k < rows.len() && rows[k] == row(s, s.current);
    assert forall|l: int| 0 <= l < rows.len() && (#[trigger] rows[l]).4 implies l == k by {
        assert(rows[l] == row(s, slot_of(s, n, l)));
        if l < k {
            assert(rows[l].0 != rows[k].0);
        } else if k < l {
            assert(rows[k].0 != rows[l].0);
        }
    }
    assert(rows[k].4);
    assert forall|k: int| 0 <= k < rows.len() && (#[trigger] rows[k]).2 == TaskState::Running implies rows[k].4 by {
        let i = slot_of(s, n, k);
        assert(rows[k] == row(s, i));
        assert(is_running(s.slots[i]));
    }
}

proof fn lemma_listing_grows(before: Tasks, after: Tasks, i: int, n: int)
    requires
        0 <= i < before.slots.len(),
        before.slots[i] is None,
        after.slots[i] is Some,
        after.slots == before.slots.update(i, after.slots[i]),
        after.current == before.current,
        0 <= n <= before.slots.len(),
    ensures
        n <= i ==> listing(after, n) == listing(before, n),
        n > i ==> 0 <= listing(before, i).len() <= listing(before, n).len() && listing(after, n) == listing(
            before,
            n,
        ).insert(listing(before, i).len() as int, row(after, i)),
    decreases n,
{
    if n > 0 {
        lemma_listing_grows(before, after, i, n - 1);
        let at = listing(before, i).len() as int;
        if n - 1 == i {
            assert(listing(after, n) =~= listing(before, n).insert(at, row(after, i)));
        } else {
            assert(after.slots[n - 1] == before.slots[n - 1]);
            if n > i {
                assert(listing(after, n) =~= listing(before, n).insert(at, row(after, i)));
            }
        }
    }
}

proof fn lemma_no_free_slot(slots: Seq<Option<Task>>, from: int)
    requires
        0 <= from,
    ensures
        free_slot(slots, from) is None <==> forall|i: int| from <= i < slots.len() ==> (#[trigger] slots[i]) is Some,
    decreases slots.len() - from,
{
    if from < slots.len() {
        lemma_no_free_slot(slots, from + 1);
        assert(slots[from] is Some || slots[from] is None);
    }
}

/// Spawning fails exactly where every slot is taken, and the list is the same
/// then. Otherwise the list has one row more, that of a task that is ready
/// and has not run, under a number above every one in it.
pub proof fn law_spawning_adds_one(before: Tasks, after: Tasks, files: Option<usize>)
    requires
        tidy(before),
        spawn_done(before, after, files),
    ensures
        ({
            let rows = listing(before, MAX_TASKS as int);
            &&& free_slot(before.slots, 0) is None <==> forall|i: int|
                0 <= i < MAX_TASKS ==> (#[trigger] before.slots[i]) is Some
            &&& free_slot(before.slots, 0) is None ==> listing(after, MAX_TASKS as int) == rows
            &&& free_slot(before.slots, 0) matches Some(i) ==> {
                &&& exists|k: int|
                    0 <= k <= rows.len() && listing(after, MAX_TASKS as int) == #[trigger] rows.insert(
                        k,
                        (before.next_id, (after.slots[i]->0).name, TaskState::Ready, 0u64, false),
                    )
                &&& forall|k: int| 0 <= k < rows.len() ==> (#[trigger] rows[k]).0 < before.next_id
            }
        }),
{
    lemma_no_free_slot(before.slots, 0);
    lemma_free_slot(before.slots, 0);
    if let Some(i) = free_slot(before.slots, 0) {
        let n = MAX_TASKS as int;
        let rows = listing(before, n);
        lemma_listing_grows(before, after, i, n);
        lemma_rows(before, n);
        let k = listing(before, i).len() as int;
        assert(row(after, i) == (before.next_id, (after.slots[i]->0).name, TaskState::Ready, 0u64, false));
        assert(listing(after, n) == rows.insert(k, row(after, i)));
        assert forall|k: int| 0 <= k < rows.len() implies (#[trigger] rows[k]).0 < before.next_id by {
            assert(rows[k] == row(before, slot_of(before, n, k)));
        }
    }
}

// ---- Waits ----

/// A wait goes on until its deadline or a wake at its address: whatever else
/// happens, the task waits as before, unless it is ended.
pub proof fn law_waits_last(before: Tasks, e: Event, after: Tasks, i: int)
    requires
        tidy(before),
        happened(before, e, after),
        0 <= i < MAX_TASKS,
        before.slots[i] matches Some(t) && t.state == TaskState::Blocked,
        e is Wait ==> i != before.current,
    ensures
        after.slots[i] matches Some(u) && {
            let t = before.slots[i]->0;
            ||| u == t
            ||| u.state == TaskState::Terminated
            ||| (t.wait_deadline matches Some(d) && (e matches Event::Schedule(_, _, now) && now >= d) && wait_state(u)
                == WaitState::Expired)
            ||| (t.futex_addr is Some && (e is Wake || e is Exit) && wait_state(u) == WaitState::Woken && (
            e matches Event::Wake(addr, _) ==> t.futex_addr == Some(addr)))
        },
{
    match e {
        Event::Spawn(_) => {
            lemma_free_slot(before.slots, 0);
        },
        Event::Kill(id) => {
            lemma_living(before.slots, id, 0);
        },
        Event::Schedule(regions, mem, now) => {
            lemma_scheduled(before, regions, mem, now);
        },
        _ => {},
    }
}

} // verus!
