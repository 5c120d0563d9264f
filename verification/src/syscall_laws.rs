//! What holds of KonjacOS's own system calls, by their numbers.
use crate::kernel::Kernel;
use crate::linux_abi::{zeros, NextV, ReplyV};
use crate::linux_laws::{answers, bytes_of, delivers, file_at, lemma_only_file, lemma_read_piece, only_file, part};
use crate::linux_task_laws::lemma_grown;
use crate::mmu::page_entry;
use crate::program_laws::program_page;
use crate::syscall::{call_done, input_len};
use crate::task::{free_descriptor, FileBacking, OpenV, Task, TaskState};
use crate::vm::mapping_at;
use vstd::prelude::*;

verus! {

/// The answer of a call that fails: all bits are set.
pub open spec fn failed(r: ReplyV) -> bool {
    answers(r, 0xFFFF_FFFF_FFFF_FFFF)
}

/// Reading (3) gives the program the bytes of the file from where it is, as
/// many as it asked for and at most 4096, and moves the file past them. At
/// the end the answer is zero. A number that is no open file's is refused.
pub proof fn law_own_read(
    before: Kernel,
    after: Kernel,
    fd: u64,
    at: u64,
    len: u64,
    input: Seq<u8>,
    base: u64,
    r: ReplyV,
)
    requires
        before.wf(),
        call_done(before, after, 3, fd, at, len, input, base, r),
    ensures
        match file_at(before, fd) {
            None => failed(r) && after == before,
            Some(f) => bytes_of(f) is Some && 0 <= f.pos ==> {
                let n = if len <= 4096 {
                    len as int
                } else {
                    4096
                };
                let got = part(bytes_of(f)->0, f.pos, n);
                &&& only_file(before, after, fd)
                &&& file_at(after, fd) == Some(OpenV { pos: f.pos + got.len(), ..f })
                &&& if got.len() == 0 {
                    answers(r, 0)
                } else {
                    delivers(r, got.len() as int, at, got)
                }
            },
        },
{
    if let Some(f) = file_at(before, fd) {
        if bytes_of(f) is Some && 0 <= f.pos {
            let n: int = if len <= 4096 {
                len as int
            } else {
                4096
            };
            let got = part(bytes_of(f)->0, f.pos, n);
            lemma_read_piece(f, before.fs.disk@, before.fs.layout, n as nat, None);
            lemma_only_file(before, after, fd, Some(OpenV { pos: f.pos + got.len(), ..f }));
            let (f1, out, m) = crate::task::OpenFile::read_result(
                f,
                before.fs.disk@,
                before.fs.layout,
                zeros(n as nat),
                None,
            );
            assert(out.take(got.len() as int) == got);
        }
    }
}

/// Closing (4) frees the number, and no other. A number that is no open
/// file's is refused.
pub proof fn law_own_close(
    before: Kernel,
    after: Kernel,
    fd: u64,
    arg1: u64,
    arg2: u64,
    input: Seq<u8>,
    base: u64,
    r: ReplyV,
)
    requires
        before.wf(),
        call_done(before, after, 4, fd, arg1, arg2, input, base, r),
    ensures
        file_at(after, fd) is None,
        if file_at(before, fd) is None {
            failed(r) && after == before
        } else {
            answers(r, 0) && only_file(before, after, fd)
        },
{
    if file_at(before, fd) is Some {
        lemma_only_file(before, after, fd, None);
    }
}

proof fn lemma_lowest(k: Kernel, from: int)
    requires
        k.wf(),
        0 <= from <= 16,
        forall|j: u64| 0 <= j < from ==> #[trigger] file_at(k, j) is Some,
    ensures
        match free_descriptor(k.tasks@.descriptors(), from) {
            None => forall|j: u64| j < 16 ==> #[trigger] file_at(k, j) is Some,
            Some(fd) => from <= fd < 16 && file_at(k, fd as u64) is None && forall|j: u64|
                j < fd ==> #[trigger] file_at(k, j) is Some,
        },
    decreases 16 - from,
{
    let t = k.task().files as int;
    assert(k.tasks@.files[t].entries@.len() == 16);
    if from < 16 {
        assert(file_at(k, from as u64) == k.tasks@.descriptors()[from]);
        if k.tasks@.descriptors()[from] is Some {
            lemma_lowest(k, from + 1);
        }
    }
}

/// Opening (2) a file that the path leads to gives it the lowest number that
/// is free, and it stands at its start. Where there is no such file, or no
/// number is free, the call fails and nothing changes.
pub proof fn law_own_open(
    before: Kernel,
    after: Kernel,
    arg0: u64,
    arg1: u64,
    arg2: u64,
    path: Seq<u8>,
    base: u64,
    r: ReplyV,
)
    requires
        before.wf(),
        call_done(before, after, 2, arg0, arg1, arg2, path, base, r),
        vstd::utf8::valid_utf8(path),
    ensures
        match crate::volume::file_entry(before.fs.volume(), before.fs.place(), path) {
            Err(_) => failed(r) && after.tasks@ == before.tasks@,
            Ok(e) => if forall|j: u64| j < 16 ==> #[trigger] file_at(before, j) is Some {
                failed(r) && after.tasks@ == before.tasks@
            } else {
                &&& answers(r, r.value as int)
                &&& file_at(before, r.value) is None
                &&& forall|j: u64| j < r.value ==> #[trigger] file_at(before, j) is Some
                &&& only_file(before, after, r.value)
                &&& file_at(after, r.value) matches Some(f)
                &&& f.pos == 0
                &&& f.extra is None
                &&& f.data matches FileBacking::Disk(x)
                &&& x.first == e.cluster
                &&& x.size == e.size
                &&& x.cursor_index == 0
                &&& x.cursor_cluster == e.cluster
            },
        },
{
    lemma_lowest(before, 0);
    if let Ok(e) = crate::volume::file_entry(before.fs.volume(), before.fs.place(), path) {
        if let Some(fd) = free_descriptor(before.tasks@.descriptors(), 0) {
            let f = after.tasks@.descriptors()[fd];
            assert(before.tasks@.descriptors().len() == 16) by {
                let t = before.task().files as int;
                assert(before.tasks@.files[t].entries@.len() == 16);
            }
            lemma_only_file(before, after, fd as u64, f);
            assert(file_at(before, fd as u64) is None);
        }
    }
}

/// What a write (1) or an open (2) reads of the program's memory: what it was
/// told to, up to 4096 bytes of text and 256 bytes of a path. No other call
/// reads any.
pub proof fn law_own_input(number: u64, len: u64)
    ensures
        input_len(number, len) <= len,
        number == 1 ==> input_len(number, len) == len || input_len(number, len) == 4096 && len > 4096,
        number == 2 ==> input_len(number, len) == len || input_len(number, len) == 256 && len > 256,
        number != 1 && number != 2 ==> input_len(number, len) == 0,
{
}

/// Writing (1) shows text as it is, and changes nothing.
pub proof fn law_own_write(
    before: Kernel,
    after: Kernel,
    arg0: u64,
    arg1: u64,
    arg2: u64,
    text: Seq<u8>,
    base: u64,
    r: ReplyV,
)
    requires
        call_done(before, after, 1, arg0, arg1, arg2, text, base, r),
    ensures
        after == before,
        r.value == 0,
        r.writes.len() == 0,
        r.next == NextV::Resume,
        vstd::utf8::valid_utf8(text) ==> r.output == text,
{
}

proof fn lemma_all_taken(slots: Seq<Option<Task>>, from: int)
    requires
        0 <= from <= slots.len(),
        crate::task::free_slot(slots, from) is None,
    ensures
        forall|j: int| from <= j < slots.len() ==> #[trigger] slots[j] is Some,
    decreases slots.len() - from,
{
    if from < slots.len() {
        lemma_all_taken(slots, from + 1);
    }
}

/// A thread (6) shares the address space of the task that starts it, and
/// nothing of its open files. It first goes where tasks enter user mode, with
/// the entry in its fourth word and its stack in its third. The caller is
/// answered its number, and stays as it is.
pub proof fn law_own_thread(
    before: Kernel,
    after: Kernel,
    entry: u64,
    stack: u64,
    arg2: u64,
    input: Seq<u8>,
    base: u64,
    r: ReplyV,
)
    requires
        before.wf(),
        base + 0x8000 <= u64::MAX,
        call_done(before, after, 6, entry, stack, arg2, input, base, r),
    ensures
        if forall|j: int| 0 <= j < 16 ==> #[trigger] before.tasks@.slots[j] is Some {
            failed(r) && after.tasks@ == before.tasks@
        } else {
            &&& answers(r, before.tasks@.next_id as int)
            &&& after.tasks@.next_id == before.tasks@.next_id.wrapping_add(1)
            &&& after.tasks@.current == before.tasks@.current
            &&& exists|i: int| #[trigger] joined(before, after, i, entry, stack, base)
        },
{
    crate::task::lemma_free_slot(before.tasks@.slots, 0);
    if let Some(i) = crate::task::free_slot(before.tasks@.slots, 0) {
        let t = after.tasks@.slots[i]->0;
        assert(before.tasks@.slots[i] is None);
        assert(started(t, before, entry, stack, base));
        assert(joined(before, after, i, entry, stack, base));
    } else {
        lemma_all_taken(before.tasks@.slots, 0);
    }
}

/// The new thread has a slot that was free, with no open files, and the other
/// tasks are as they were.
pub open spec fn joined(before: Kernel, after: Kernel, i: int, entry: u64, stack: u64, base: u64) -> bool {
    &&& 0 <= i < 16
    &&& before.tasks@.slots[i] is None
    &&& after.tasks@.slots[i] matches Some(t)
    &&& started(t, before, entry, stack, base)
    &&& after.tasks@.files[t.files as int].empty()
    &&& forall|j: int| 0 <= j < 16 && j != i ==> #[trigger] after.tasks@.slots[j] == before.tasks@.slots[j]
}

/// A thread that has been started and not run.
pub open spec fn started(t: Task, before: Kernel, entry: u64, stack: u64, base: u64) -> bool {
    let parent = before.task();
    &&& t.id == before.tasks@.next_id
    &&& t.state == TaskState::Ready
    &&& t.stack@.len() == 7
    &&& t.stack@[6] == before.tasks@.enter_user
    &&& t.stack@[3] == entry
    &&& t.stack@[2] == stack
    &&& t.stack@[0] == 0 && t.stack@[1] == 0 && t.stack@[4] == 0 && t.stack@[5] == 0
    &&& t.kernel_stack_top == base + 0x8000
    &&& t.saved_rsp == base + 0x8000 - 56
    &&& t.cr3 == parent.cr3
    &&& t.heap_end == parent.heap_end
    &&& t.fs_base == parent.fs_base
    &&& t.ticks_run == 0
    &&& t.futex_addr is None
    &&& t.wait_deadline is None
    &&& t.child_tidptr is None
    &&& t.sig_delivering is None
}

/// Moving the end of the heap (5) never moves it down. It ends at the first
/// page end at or behind the request, or before, where memory ran out, and
/// every page that it gained is the program's to write.
pub proof fn law_own_brk(
    before: Kernel,
    after: Kernel,
    to: u64,
    arg1: u64,
    arg2: u64,
    input: Seq<u8>,
    base: u64,
    r: ReplyV,
    x: u64,
)
    requires
        before.wf(),
        call_done(before, after, 5, to, arg1, arg2, input, base, r),
        before.task().heap_end % 4096 == 0,
        to <= 0x7FFF_FFFF_0000,
    ensures
        ({
            let had = before.task().heap_end;
            &&& answers(r, r.value as int)
            &&& after.tasks@.running() matches Some(t)
            &&& t.heap_end == r.value
            &&& t.id == before.task().id
            &&& had <= r.value
            &&& to <= had ==> r.value == had && after.mem@ == before.mem@
            &&& to > had ==> r.value < to + 4096 && r.value % 4096 == 0
            &&& had <= x < r.value ==> program_page(page_entry(after.mem.ram@, before.space(), x), true)
            &&& x < had || r.value <= x < 0x8000_0000_0000 ==> page_entry(after.mem.ram@, before.space(), x)
                == page_entry(before.mem.ram@, before.space(), x)
        }),
{
    let had = before.task().heap_end;
    if to > had {
        lemma_grown(before.mem@, before.space(), had as int, crate::kernel::heap_goal(to), x);
    }
    crate::mmu::law_walks_agree(before.mem.ram@, before.space(), x);
    crate::mmu::law_walks_agree(after.mem.ram@, before.space(), x);
}

/// Memory that is asked for (7) is the task's own, to be read, written and
/// run, wherever it was put; nothing else that is mapped changes.
pub proof fn law_own_mmap(
    before: Kernel,
    after: Kernel,
    len: u64,
    arg1: u64,
    arg2: u64,
    input: Seq<u8>,
    base: u64,
    r: ReplyV,
    x: u64,
)
    requires
        before.wf(),
        call_done(before, after, 7, len, arg1, arg2, input, base, r),
    ensures
        after.tasks == before.tasks,
        after.fs == before.fs,
        failed(r) || {
            let start = r.value;
            &&& answers(r, start as int)
            &&& start % 4096 == 0 && 4096 <= start && start + len <= 0x8000_0000_0000
            &&& start <= x < start + len ==> (mapping_at(after.regions@, before.space(), x) matches Some(
                (prot, shared, backing, _),
            ) && prot == 7 && !shared && backing is None)
            &&& x < start || start + len + 4095 <= x ==> mapping_at(after.regions@, before.space(), x) == mapping_at(
                before.regions@,
                before.space(),
                x,
            )
        },
{
    let (t, s, cr3) = (before.regions@, before.mem@, before.space());
    assert(0x22u64 & 3 == 2) by (bit_vector);
    crate::mmu::law_mapping_answers(t, s, cr3, 0, len, 7, 0x22, None, 0);
    if crate::vm::mapping(t, s, cr3, 0, len, 7, 0x22, None, 0).2 is Ok {
        crate::mmu::law_mapped_bytes(t, s, cr3, 0, len, 7, 0x22, None, 0, x);
    }
}

} // verus!
