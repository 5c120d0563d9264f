//! What lines of text mean to the shell and its commands, for every text that
//! is put together in the way that it is typed.
use crate::apex::edited;
use crate::commands::{assigns, killed, name_of, run_effect, run_parts, write_parts};
use crate::paging::Mem;
use crate::shell::parsed;
use crate::task::{listing, living, Task, TaskState, Tasks};
use crate::text::{
    decimal, first_of, hex, hex_digit, law_decimal_round_trip, lemma_first_of, split_at_first, trimmed, trimmed_end,
    trimmed_start,
};
use crate::volume::{Place, Volume};
use vstd::prelude::*;

verus! {

// ---- Texts ----

/// A character that is seen.
pub open spec fn visible(b: u8) -> bool {
    0x21 <= b <= 0x7E
}

/// A word: characters that are seen.
pub open spec fn is_word(s: Seq<u8>) -> bool {
    s.len() > 0 && forall|i: int| 0 <= i < s.len() ==> visible(#[trigger] s[i])
}

/// A text that starts and ends with something that is seen.
pub open spec fn is_text(s: Seq<u8>) -> bool {
    s.len() > 0 && visible(s[0]) && visible(s[s.len() - 1])
}

/// Spaces, at least one.
pub open spec fn is_gap(s: Seq<u8>) -> bool {
    s.len() > 0 && forall|i: int| 0 <= i < s.len() ==> #[trigger] s[i] == 0x20
}

proof fn lemma_untrimmed(t: Seq<u8>)
    requires
        is_text(t),
    ensures
        trimmed_start(t) == t,
        trimmed_end(t) == t,
        trimmed(t) == t,
{
}

proof fn lemma_gap_trimmed(gap: Seq<u8>, t: Seq<u8>)
    requires
        forall|i: int| 0 <= i < gap.len() ==> #[trigger] gap[i] == 0x20,
        is_text(t),
    ensures
        trimmed_start(gap + t) == t,
    decreases gap.len(),
{
    if gap.len() == 0 {
        assert(gap + t =~= t);
        lemma_untrimmed(t);
    } else {
        lemma_gap_trimmed(gap.drop_first(), t);
        assert((gap + t).skip(1) =~= gap.drop_first() + t);
    }
}

proof fn lemma_split(word: Seq<u8>, gap: Seq<u8>, t: Seq<u8>)
    requires
        is_word(word),
        is_gap(gap),
    ensures
        split_at_first(word + gap + t, 0x20) == Some((word, gap.drop_first() + t)),
{
    let s = word + gap + t;
    lemma_first_of(s, 0x20, 0);
    let n = word.len() as int;
    assert(s[n] == 0x20);
    assert forall|j: int| 0 <= j < n implies s[j] != 0x20 by {
        assert(s[j] == word[j]);
    }
    assert(first_of(s, 0x20, 0) == Some(n));
    assert(s.take(n) =~= word);
    assert(s.skip(n + 1) =~= gap.drop_first() + t);
}

/// A line with a word and a text is the command of that word with that text,
/// however many spaces are between them.
pub proof fn law_line(word: Seq<u8>, gap: Seq<u8>, t: Seq<u8>)
    requires
        is_word(word),
        is_gap(gap),
        is_text(t),
    ensures
        parsed(word + gap + t) == Some((word, t)),
        parsed(word) == Some((word, Seq::<u8>::empty())),
{
    let s = word + gap + t;
    assert(s[0] == word[0] && s[s.len() - 1] == t[t.len() - 1]);
    lemma_untrimmed(s);
    lemma_split(word, gap, t);
    lemma_gap_trimmed(gap.drop_first(), t);
    lemma_untrimmed(word);
    lemma_first_of(word, 0x20, 0);
}

/// A file that is written has the text behind its name, without the spaces
/// between them and with a line break at its end.
pub proof fn law_write_line(name: Seq<u8>, gap: Seq<u8>, t: Seq<u8>)
    requires
        is_word(name),
        is_gap(gap),
        is_text(t),
    ensures
        write_parts(name + gap + t) == (name, t.push(0x0A)),
        write_parts(name) == (name, seq![0x0Au8]),
{
    lemma_split(name, gap, t);
    lemma_gap_trimmed(gap.drop_first(), t);
    lemma_first_of(name, 0x20, 0);
}

/// A word that sets a variable: a name, an equals sign and a value.
pub open spec fn is_setting(word: Seq<u8>) -> bool {
    is_word(word) && word[0] != 0x3D && exists|i: int| 0 < i < word.len() && #[trigger] word[i] == 0x3D
}

/// What comes before a program to run are its variables, as long as each sets
/// one; the rest is the program.
pub proof fn law_run_line(word: Seq<u8>, gap: Seq<u8>, t: Seq<u8>)
    requires
        is_word(word),
        is_gap(gap),
        is_text(t),
    ensures
        is_setting(word) ==> run_parts(word + gap + t) == (seq![word] + run_parts(t).0, run_parts(t).1),
        !is_setting(word) ==> run_parts(word + gap + t) == (Seq::<Seq<u8>>::empty(), word + gap + t),
        run_parts(word) == (Seq::<Seq<u8>>::empty(), word),
{
    lemma_split(word, gap, t);
    lemma_gap_trimmed(gap.drop_first(), t);
    lemma_first_of(word, 0x20, 0);
    lemma_first_of(word, 0x3D, 0);
    if let Some(i) = first_of(word, 0x3D, 0) {
        assert(word.take(i).len() == i);
    }
    assert(assigns(word) == is_setting(word));
}

// ---- Numbers ----

/// The value of a hexadecimal digit.
pub open spec fn digit_value(b: u8) -> int {
    if 0x30 <= b <= 0x39 {
        b - 0x30
    } else {
        b - 0x61 + 10
    }
}

/// The number that hexadecimal digits stand for.
pub open spec fn hex_value(s: Seq<u8>) -> int
    decreases s.len(),
{
    if s.len() == 0 {
        0
    } else {
        16 * hex_value(s.drop_last()) + digit_value(s.last())
    }
}

/// A number in hexadecimal stands for the number, with no more zeros before
/// it than it takes.
pub proof fn law_hex(n: nat)
    ensures
        hex_value(hex(n)) == n,
        hex(n).len() > 0,
        n > 0 ==> hex(n)[0] != 0x30,
        forall|i: int| 0 <= i < hex(n).len() ==> 0x30 <= #[trigger] hex(n)[i] <= 0x39 || 0x61 <= hex(n)[i] <= 0x66,
    decreases n,
{
    if n < 16 {
        assert(hex(n).drop_last() =~= Seq::empty());
        assert(hex_value(Seq::<u8>::empty()) == 0);
        assert(hex(n).last() == hex_digit(n));
    } else {
        law_hex(n / 16);
        assert(hex(n).drop_last() =~= hex(n / 16));
        assert(hex(n).last() == hex_digit(n % 16));
    }
}

// ---- Keys ----

/// A character that is typed is taken back by a backspace.
pub proof fn law_backspace_takes_back(line: Seq<u8>, key: u8)
    requires
        0x20 <= key <= 0x7E,
        edited(line, key).0 != line,
    ensures
        edited(line, key).0 == line.push(key),
        edited(edited(line, key).0, 8).0 == line,
{
    assert(line.push(key).drop_last() =~= line);
}

// ---- Killing ----

proof fn lemma_alive(slots: Seq<Option<Task>>, id: u64, from: int)
    requires
        0 <= from <= slots.len(),
    ensures
        match living(slots, id, from) {
            None => forall|j: int|
                from <= j < slots.len() ==> !(#[trigger] slots[j] matches Some(t) && t.id == id && t.state
                    != TaskState::Terminated),
            Some(i) => from <= i < slots.len() && (slots[i] matches Some(t) && t.id == id && t.state
                != TaskState::Terminated),
        },
    decreases slots.len() - from,
{
    if from < slots.len() {
        lemma_alive(slots, id, from + 1);
    }
}

proof fn lemma_row(tasks: Tasks, n: int, i: int) -> (k: int)
    requires
        0 <= i < n,
        tasks.slots[i] is Some,
    ensures
        0 <= k < listing(tasks, n).len(),
        listing(tasks, n)[k].0 == (tasks.slots[i]->0).id,
    decreases n,
{
    if i == n - 1 {
        listing(tasks, n - 1).len() as int
    } else {
        lemma_row(tasks, n - 1, i)
    }
}

proof fn lemma_named(rows: Seq<(u64, &'static str, TaskState, u64, bool)>, id: u64, from: int, k: int)
    requires
        0 <= from <= k < rows.len(),
        rows[k].0 == id,
    ensures
        name_of(rows, id, from) is Some,
    decreases k - from,
{
    if rows[from].0 != id {
        lemma_named(rows, id, from + 1, k);
    }
}

/// Killing by a number ends a task of that number that has not ended, and no
/// other task; the shell, which has number zero, is never ended.
pub proof fn law_kill(tasks: Tasks, id: u64, i: int)
    requires
        tasks.slots.len() == 16,
        0 <= i < 16,
    ensures
        ({
            let after = killed(tasks, decimal(id as nat)).0;
            let (was, now) = (tasks.slots[i], after.slots[i]);
            &&& after == Tasks { slots: after.slots, ..tasks }
            &&& after.slots.len() == 16
            &&& now != was ==> id != 0 && (was matches Some(t) && t.id == id && t.state != TaskState::Terminated && now
                == Some(Task { state: TaskState::Terminated, ..t }))
            &&& (was matches Some(t) && t.id == id && t.state != TaskState::Terminated) && id != 0 ==> after.slots
                != tasks.slots
            &&& id == 0 ==> after.slots == tasks.slots
        }),
{
    let text = decimal(id as nat);
    law_decimal_round_trip(id as nat, u64::MAX as nat);
    lemma_digits(id as nat);
    lemma_untrimmed(text);
    lemma_alive(tasks.slots, id, 0);
    let rows = listing(tasks, 16);
    if let Some(j) = living(tasks.slots, id, 0) {
        let k = lemma_row(tasks, 16, j);
        lemma_named(rows, id, 0, k);
        if id != 0 {
            let after = killed(tasks, text).0;
            assert(after.slots[j] != tasks.slots[j]);
        }
    }
}

proof fn lemma_digits(n: nat)
    ensures
        decimal(n).len() > 0,
        forall|i: int| 0 <= i < decimal(n).len() ==> visible(#[trigger] decimal(n)[i]),
    decreases n,
{
    if n >= 10 {
        lemma_digits(n / 10);
    }
}

// ---- Running ----

/// A program that runs has been loaded with the path as its only argument,
/// and its task first goes where tasks enter user mode, with the program's
/// entry in the fourth word of its stack and its stack pointer in the third.
/// It has the address space that was made for it.
pub proof fn law_run(
    v: Volume,
    at: Place,
    source: u64,
    path: Seq<u8>,
    base: u64,
    mem: Mem,
    after: Mem,
    tasks: Tasks,
    tasks_after: Tasks,
)
    requires
        is_word(path),
        tasks.slots.len() == 16,
        base + 0x8000 <= u64::MAX,
        run_effect(v, at, source, path, base, mem, after, tasks, tasks_after),
        tasks_after != tasks,
    ensures
        exists|i: int| #[trigger] runs(v, at, source, path, base, mem, after, tasks, tasks_after, i),
{
    lemma_untrimmed(path);
    lemma_first_of(path, 0x20, 0);
    assert(run_parts(path) == (Seq::<Seq<u8>>::empty(), path));
    crate::task::lemma_free_slot(tasks.slots, 0);
    let i = crate::task::free_slot(tasks.slots, 0)->0;
    assert(runs(v, at, source, path, base, mem, after, tasks, tasks_after, i));
}

/// The task in slot `i` runs the program that a path leads to.
pub open spec fn runs(
    v: Volume,
    at: Place,
    source: u64,
    path: Seq<u8>,
    base: u64,
    mem: Mem,
    after: Mem,
    tasks: Tasks,
    tasks_after: Tasks,
    i: int,
) -> bool {
    &&& 0 <= i < 16
    &&& tasks.slots[i] is None
    &&& forall|j: int| 0 <= j < 16 && j != i ==> #[trigger] tasks_after.slots[j] == tasks.slots[j]
    &&& crate::volume::content(v, at, path) matches Ok(bytes)
    &&& crate::loader::planned(v, at, bytes) matches Ok(p)
    &&& crate::loader::loaded(mem, source, p, seq![path], Seq::empty()).1 matches Ok((pml4, sp))
    &&& after == crate::loader::loaded(mem, source, p, seq![path], Seq::empty()).0
    &&& tasks_after.slots[i] matches Some(t)
    &&& t.id == tasks.next_id
    &&& t.state == TaskState::Ready
    &&& t.cr3 == pml4
    &&& t.stack@.len() == 7
    &&& t.stack@[6] == tasks.enter_user
    &&& t.stack@[3] == p.entry
    &&& t.stack@[2] == sp
    &&& t.kernel_stack_top == base + 0x8000
    &&& t.saved_rsp == base + 0x8000 - 56
    &&& t.exe_path@ == path
    &&& tasks_after.files[t.files as int].empty()
}

} // verus!
