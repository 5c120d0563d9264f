//! Tasks: the table of them, the scheduler, blocking and waking, signals, and
//! the files that each has open.
use crate::fat16::Fs;
use crate::paging::{destroy_address_space, known, target, without_tree, Mem, Memory};
use crate::pmm::Frames;
use crate::vm::{without_space, Regions, Table};
use crate::volume::{image_ok, min, read_from, read_run, sector, File, Image, Layout};
use vstd::prelude::*;
use vstd::slice::slice_to_vec;

verus! {

pub const MAX_TASKS: usize = 16;

pub const MAX_OPEN_FILES: usize = 16;

pub const USER_HEAP_BASE: u64 = 0x0000_0060_0000_0000;

pub const USER_MMAP_BASE: u64 = 0x0000_0070_0000_0000;

/// Where the bytes of an open file come from.
#[derive(Clone, Copy)]
pub enum FileBacking {
    Disk(File),
    Static(&'static [u8]),
}

/// How many bytes of a run of `len` bytes there are to read from `offset` on,
/// if no more than `room` are wanted.
pub open spec fn readable(len: int, offset: int, room: int) -> int {
    if offset >= len {
        0
    } else {
        min(len - offset, room)
    }
}

/// Puts what `data` holds from `offset` on at the start of `out`.
pub open spec fn copied(data: Seq<u8>, offset: int, out: Seq<u8>) -> Seq<u8> {
    let n = readable(data.len() as int, offset, out.len() as int);
    Seq::new(
        out.len(),
        |i: int|
            if i < n {
                data[offset + i]
            } else {
                out[i]
            },
    )
}

impl FileBacking {
    pub open spec fn size(self) -> int {
        match self {
            FileBacking::Disk(f) => f.size as int,
            FileBacking::Static(data) => data@.len() as int,
        }
    }

    pub fn len(&self) -> (r: usize)
        ensures
            r == self.size(),
    {
        match self {
            FileBacking::Disk(f) => f.size as usize,
            FileBacking::Static(data) => data.len(),
        }
    }

    /// What reading from `offset` on into `out` leaves of the backing and of
    /// `out`, and what it returns.
    pub open spec fn read(self, d: Image, layout: Option<Layout>, offset: int, out: Seq<u8>) -> (
        FileBacking,
        Seq<u8>,
        Result<int, i64>,
    ) {
        match self {
            FileBacking::Disk(f) => {
                let (f1, bytes, n) = read_from(d, layout, f, offset, out);
                (
                    FileBacking::Disk(f1),
                    bytes,
                    match n {
                        Ok(k) => Ok(k),
                        Err(_) => Err(-5i64),
                    },
                )
            },
            FileBacking::Static(data) => (
                self,
                copied(data@, offset, out),
                Ok(readable(data@.len() as int, offset, out.len() as int)),
            ),
        }
    }

    /// Reads from `offset` on into `buffer`, as far as the file or the buffer
    /// goes. A failing disk is reported as EIO.
    pub fn read_at(&mut self, fs: &mut Fs, offset: u64, buffer: &mut Vec<u8>) -> (r: Result<usize, i64>)
        requires
            old(fs).wf(),
        ensures
            final(fs).only_read(*old(fs)),
            final(buffer)@.len() == old(buffer)@.len(),
            ({
                let (backing, bytes, n) = old(self).read(
                    old(fs).disk@,
                    old(fs).layout,
                    offset as int,
                    old(buffer)@,
                );
                &&& *final(self) == backing
                &&& final(buffer)@ == bytes
                &&& match n {
                    Ok(k) => r matches Ok(x) && x == k && k <= old(buffer)@.len() && (k > 0 ==> offset + k
                        <= old(self).size()),
                    Err(e) => r == Err::<usize, i64>(e),
                }
            }),
    {
        match self {
            FileBacking::Disk(file) => {
                proof {
                    lemma_read_len(fs.disk@, fs.layout, *file, offset as int, buffer@);
                }
                match file.read_at(fs, offset, buffer) {
                    Ok(n) => Ok(n),
                    Err(_) => Err(-5),
                }
            },
            FileBacking::Static(data) => {
                let len: u64 = data.len() as u64;
                let room: u64 = buffer.len() as u64;
                let left: u64 = len.saturating_sub(offset);
                let n: usize = if left <= room {
                    left as usize
                } else {
                    room as usize
                };
                copy_from(data, offset, buffer, n);
                Ok(n)
            },
        }
    }
}

fn copy_from(data: &[u8], offset: u64, out: &mut Vec<u8>, n: usize)
    requires
        n == readable(data@.len() as int, offset as int, old(out)@.len() as int),
    ensures
        final(out)@ == copied(data@, offset as int, old(out)@),
{
    let ghost before = out@;
    assert(out.len() == before.len());
    assert(data.len() == data@.len());
    for i in 0..n
        invariant
            n == readable(data@.len() as int, offset as int, before.len() as int),
            n > 0 ==> offset + n <= data@.len(),
            n <= before.len(),
            data@.len() <= usize::MAX,
            out@.len() == before.len(),
            forall|k: int|
                0 <= k < before.len() ==> #[trigger] out@[k] == if k < i {
                    data@[offset + k]
                } else {
                    before[k]
                },
    {
        out[i] = data[offset as usize + i];
    }
    assert(out@ =~= copied(data@, offset as int, before));
}

/// Reading keeps the length of the buffer and returns no more than it.
proof fn lemma_read_len(d: Image, layout: Option<Layout>, f: File, offset: int, out: Seq<u8>)
    requires
        image_ok(d),
        0 <= offset,
    ensures
        ({
            let (_, bytes, n) = read_from(d, layout, f, offset, out);
            &&& bytes.len() == out.len()
            &&& n matches Ok(k) ==> 0 <= k <= out.len() && (k > 0 ==> offset + k <= f.size)
        }),
{
    if offset < f.size && out.len() > 0 {
        if let Some(l) = layout {
            if l.sectors_per_cluster != 0 {
                let per = l.sectors_per_cluster * 512;
                assert(offset % per >= 0) by (nonlinear_arith)
                    requires
                        per > 0,
                        offset >= 0,
                ;
                let want = min(out.len() as int, f.size - offset);
                let target = offset / per;
                let (c, i) = if target >= f.cursor_index {
                    (f.cursor_cluster as int, f.cursor_index as int)
                } else {
                    (f.first as int, 0)
                };
                if let Ok(x) = crate::volume::advanced(d, l, c, target - i) {
                    lemma_run_len(d, l, f, out, x, target, offset % per, 0, want);
                }
            }
        }
    }
}

proof fn lemma_run_len(
    d: Image,
    l: Layout,
    f: File,
    out: Seq<u8>,
    c: int,
    index: int,
    within: int,
    done: int,
    want: int,
)
    requires
        image_ok(d),
        0 <= within,
        0 <= done <= want <= out.len(),
    ensures
        ({
            let (_, bytes, n) = read_run(d, l, f, out, c, index, within, done, want);
            &&& bytes.len() == out.len()
            &&& n matches Ok(k) ==> 0 <= k <= want
        }),
    decreases want - done,
{
    if done < want && crate::volume::valid_cluster(l, c) && index < l.clusters() {
        let f1 = File { cursor_cluster: c as u32, cursor_index: index as u32, ..f };
        if let Ok(s) = sector(d, crate::volume::cluster_lba(l, c) + within / 512) {
            assert(s.len() == 512);
            let lo = within % 512;
            let n = min(512 - lo, want - done);
            let out1 = crate::volume::splice(out, done, s.subrange(lo, lo + n));
            assert(out1.len() == out.len());
            if within + n == l.sectors_per_cluster * 512 && done + n < want {
                if let Ok(next) = crate::volume::next_cluster(d, l, c) {
                    lemma_run_len(d, l, f1, out1, next, index + 1, 0, done + n, want);
                }
            } else {
                lemma_run_len(d, l, f1, out1, c, index, within + n, done + n, want);
            }
        }
    }
}

// ---- Tasks ----

pub const STACK_SIZE: usize = 0x8000;

pub const NSIG: usize = 32;

#[derive(Clone, Copy, PartialEq, Eq, Structural, Debug)]
pub enum TaskState {
    Ready,
    Running,
    Blocked,
    Terminated,
}

impl TaskState {
    pub open spec fn name(self) -> &'static str {
        match self {
            TaskState::Ready => "ready",
            TaskState::Running => "running",
            TaskState::Blocked => "blocked",
            TaskState::Terminated => "terminated",
        }
    }

    pub fn label(self) -> (r: &'static str)
        ensures
            r == self.name(),
    {
        match self {
            TaskState::Ready => "ready",
            TaskState::Running => "running",
            TaskState::Blocked => "blocked",
            TaskState::Terminated => "terminated",
        }
    }
}

/// The registers that a signal handler's return restores.
#[derive(Clone, Copy, PartialEq, Eq, Structural, Debug)]
pub struct SavedContext {
    pub rip: u64,
    pub cs: u64,
    pub rflags: u64,
    pub rsp: u64,
    pub ss: u64,
    pub rax: u64,
    pub rbx: u64,
    pub rcx: u64,
    pub rdx: u64,
    pub rsi: u64,
    pub rdi: u64,
    pub rbp: u64,
    pub r8: u64,
    pub r9: u64,
    pub r10: u64,
    pub r11: u64,
    pub r12: u64,
    pub r13: u64,
    pub r14: u64,
    pub r15: u64,
}

/// What an open file is besides a file to read: a directory with its path, or
/// a file being written with its path and its contents so far.
pub enum OpenExtra {
    Dir(Vec<u8>),
    Writable(Vec<u8>, Vec<u8>),
}

pub struct OpenFile {
    pub data: FileBacking,
    pub pos: usize,
    pub ino: u64,
    pub extra: Option<OpenExtra>,
}

/// The open files of a task, or of several that share them.
pub struct FileTable {
    pub entries: Vec<Option<OpenFile>>,
}

impl FileTable {
    pub open spec fn empty(self) -> bool {
        self.entries@.len() == MAX_OPEN_FILES && forall|i: int|
            0 <= i < MAX_OPEN_FILES ==> #[trigger] self.entries@[i] is None
    }

    fn new() -> (r: FileTable)
        ensures
            r.empty(),
    {
        let mut entries: Vec<Option<OpenFile>> = Vec::new();
        for i in 0..MAX_OPEN_FILES
            invariant
                entries@.len() == i,
                forall|k: int| 0 <= k < i ==> #[trigger] entries@[k] is None,
        {
            entries.push(None);
        }
        FileTable { entries }
    }
}

/// A task. `stack` is what its kernel stack holds from `saved_rsp` up when it
/// first runs; `files` is the number of its table of open files.
pub struct Task {
    pub id: u64,
    pub name: &'static str,
    pub state: TaskState,
    pub saved_rsp: u64,
    pub stack: Vec<u64>,
    pub kernel_stack_top: u64,
    pub ticks_run: u64,
    pub cr3: u64,
    pub heap_end: u64,
    pub files: usize,
    pub fs_base: u64,
    pub futex_addr: Option<u64>,
    pub wait_deadline: Option<u64>,
    pub futex_timed_out: bool,
    pub child_tidptr: Option<u64>,
    pub sig_handlers: Vec<(u64, u64, u64)>,
    pub sig_delivering: Option<u8>,
    pub sig_saved_ctx: Option<SavedContext>,
    pub exe_path: Vec<u8>,
}

/// The table of tasks. `trampoline` and `enter_user` are the addresses of the
/// two routines that a new task's first switch returns to: one for kernel
/// threads, one for user programs.
pub struct TaskTable {
    pub slots: Vec<Option<Task>>,
    pub current: usize,
    pub next_id: u64,
    pub kernel_cr3: u64,
    pub files: Vec<FileTable>,
    pub trampoline: u64,
    pub enter_user: u64,
}

pub ghost struct Tasks {
    pub slots: Seq<Option<Task>>,
    pub current: int,
    pub next_id: u64,
    pub kernel_cr3: u64,
    pub files: Seq<FileTable>,
    pub trampoline: u64,
    pub enter_user: u64,
}

impl TaskTable {
    pub open spec fn view(self) -> Tasks {
        Tasks {
            slots: self.slots@,
            current: self.current as int,
            next_id: self.next_id,
            kernel_cr3: self.kernel_cr3,
            files: self.files@,
            trampoline: self.trampoline,
            enter_user: self.enter_user,
        }
    }

    pub open spec fn wf(self) -> bool {
        self@.wf()
    }
}

impl Tasks {
    pub open spec fn wf(self) -> bool {
        &&& self.slots.len() == MAX_TASKS
        &&& 0 <= self.current < MAX_TASKS
        &&& self.files.len() == MAX_TASKS
        &&& forall|k: int| 0 <= k < MAX_TASKS ==> (#[trigger] self.files[k]).entries@.len() == MAX_OPEN_FILES
        &&& forall|i: int|
            0 <= i < MAX_TASKS ==> (#[trigger] self.slots[i] matches Some(t) ==> t.files < MAX_TASKS
                && t.sig_handlers@.len() == NSIG)
    }

    /// The task that is running.
    pub open spec fn running(self) -> Option<Task> {
        self.slots[self.current]
    }

    /// The table with another state for the running task.
    pub open spec fn with(self, t: Task) -> Tasks {
        Tasks { slots: self.slots.update(self.current, Some(t)), ..self }
    }
}

/// The hash that stands in for an inode number: 64-bit FNV-1a, but never
/// zero.
pub open spec fn fnv(path: Seq<u8>) -> u64
    decreases path.len(),
{
    if path.len() == 0 {
        0xcbf29ce484222325
    } else {
        (fnv(path.drop_last()) ^ (path.last() as u64)).wrapping_mul(0x100000001b3)
    }
}

pub open spec fn path_hash(path: Seq<u8>) -> u64 {
    if fnv(path) == 0 {
        1
    } else {
        fnv(path)
    }
}

pub fn hash_path(path: &[u8]) -> (r: u64)
    ensures
        r == path_hash(path@),
{
    let mut hash: u64 = 0xcbf29ce484222325;
    let n: usize = path.len();
    assert(path@.take(0) =~= Seq::empty());
    for i in 0..n
        invariant
            n == path@.len(),
            hash == fnv(path@.take(i as int)),
    {
        assert(path@.take(i + 1).drop_last() =~= path@.take(i as int));
        hash = (hash ^ (path[i] as u64)).wrapping_mul(0x100000001b3);
    }
    assert(path@.take(n as int) =~= path@);
    if hash == 0 {
        1
    } else {
        hash
    }
}

// ---- Spawning ----

/// The first free slot from `from` on.
pub open spec fn free_slot(slots: Seq<Option<Task>>, from: int) -> Option<int>
    decreases slots.len() - from,
{
    if from >= slots.len() {
        None
    } else if slots[from] is None {
        Some(from)
    } else {
        free_slot(slots, from + 1)
    }
}

pub proof fn lemma_free_slot(slots: Seq<Option<Task>>, from: int)
    requires
        0 <= from <= slots.len(),
    ensures
        free_slot(slots, from) matches Some(i) ==> from <= i < slots.len() && slots[i] is None,
    decreases slots.len() - from,
{
    if from < slots.len() && slots[from] is Some {
        lemma_free_slot(slots, from + 1);
    }
}

/// Whether some task has the files of table `k`.
pub open spec fn table_taken(slots: Seq<Option<Task>>, k: int) -> bool {
    exists|i: int| 0 <= i < slots.len() && (#[trigger] slots[i] matches Some(t) && t.files == k)
}

/// The first table of files from `k` on that no task has.
pub open spec fn free_table(slots: Seq<Option<Task>>, k: int) -> int
    decreases MAX_TASKS - k,
{
    if k >= MAX_TASKS || !table_taken(slots, k) {
        k
    } else {
        free_table(slots, k + 1)
    }
}

spec fn tables_taken(slots: Seq<Option<Task>>) -> Set<int>
    decreases slots.len(),
{
    if slots.len() == 0 {
        Set::empty()
    } else {
        match slots.last() {
            Some(t) => tables_taken(slots.drop_last()).insert(t.files as int),
            None => tables_taken(slots.drop_last()),
        }
    }
}

spec fn tasks_among(slots: Seq<Option<Task>>) -> nat
    decreases slots.len(),
{
    if slots.len() == 0 {
        0
    } else {
        tasks_among(slots.drop_last()) + if slots.last() is Some {
            1nat
        } else {
            0nat
        }
    }
}

proof fn lemma_tables_taken(slots: Seq<Option<Task>>)
    ensures
        tables_taken(slots).finite(),
        tables_taken(slots).len() <= tasks_among(slots) <= slots.len(),
        forall|k: int| table_taken(slots, k) ==> #[trigger] tables_taken(slots).contains(k),
        (exists|i: int| 0 <= i < slots.len() && #[trigger] slots[i] is None) ==> tasks_among(slots) < slots.len(),
    decreases slots.len(),
{
    if slots.len() > 0 {
        let rest = slots.drop_last();
        lemma_tables_taken(rest);
        assert forall|k: int| table_taken(slots, k) implies #[trigger] tables_taken(slots).contains(k) by {
            let i = choose|i: int| 0 <= i < slots.len() && (#[trigger] slots[i] matches Some(t) && t.files == k);
            if i < rest.len() {
                assert(rest[i] == slots[i]);
                assert(table_taken(rest, k));
            }
        }
        if exists|i: int| 0 <= i < slots.len() && #[trigger] slots[i] is None {
            let i = choose|i: int| 0 <= i < slots.len() && #[trigger] slots[i] is None;
            if i < rest.len() {
                assert(rest[i] is None);
            }
        }
    }
}

/// As long as there is a free slot, there is a free table of files.
pub(crate) proof fn lemma_free_table(slots: Seq<Option<Task>>, k: int)
    requires
        slots.len() == MAX_TASKS,
        exists|i: int| 0 <= i < slots.len() && #[trigger] slots[i] is None,
        0 <= k <= MAX_TASKS,
        forall|j: int| 0 <= j < k ==> #[trigger] table_taken(slots, j),
    ensures
        k <= free_table(slots, k) < MAX_TASKS,
        !table_taken(slots, free_table(slots, k)),
    decreases MAX_TASKS - k,
{
    if k == MAX_TASKS {
        lemma_tables_taken(slots);
        vstd::set_lib::lemma_int_range(0, MAX_TASKS as int);
        let all = vstd::set_lib::set_int_range(0, MAX_TASKS as int);
        assert forall|j: int| all.contains(j) implies tables_taken(slots).contains(j) by {
            assert(table_taken(slots, j));
        }
        vstd::set_lib::lemma_len_subset(all, tables_taken(slots));
    } else if table_taken(slots, k) {
        lemma_free_table(slots, k + 1);
    }
}

/// The task that results from spawning: it has not run, waits for nothing and
/// handles no signal.
pub open spec fn spawned(
    t: Task,
    id: u64,
    name: &'static str,
    stack: Seq<u64>,
    top: u64,
    cr3: u64,
    heap_end: u64,
    fs_base: u64,
    child_tidptr: Option<u64>,
    exe_path: Seq<u8>,
) -> bool {
    &&& t.id == id
    &&& t.name == name
    &&& t.state == TaskState::Ready
    &&& t.saved_rsp == top - 8 * stack.len()
    &&& t.stack@ == stack
    &&& t.kernel_stack_top == top
    &&& t.ticks_run == 0
    &&& t.cr3 == cr3
    &&& t.heap_end == heap_end
    &&& t.fs_base == fs_base
    &&& t.futex_addr is None
    &&& t.wait_deadline is None
    &&& !t.futex_timed_out
    &&& t.child_tidptr == child_tidptr
    &&& no_handlers(t.sig_handlers@)
    &&& t.sig_delivering is None
    &&& t.sig_saved_ctx is None
    &&& t.exe_path@ == exe_path
}

pub open spec fn no_handlers(h: Seq<(u64, u64, u64)>) -> bool {
    h.len() == NSIG && forall|i: int| 0 <= i < NSIG ==> #[trigger] h[i] == (0u64, 0u64, 0u64)
}

/// `after` is `before` with one more task, in slot `i`, under the next
/// number. Its table of files is one that no task had and is empty, or, if it
/// shares them, the given one, which stays as it is.
pub open spec fn admitted(before: Tasks, after: Tasks, i: int, shared: Option<usize>) -> bool {
    let t = after.slots[i]->0;
    &&& after.slots[i] is Some
    &&& after == Tasks {
        slots: before.slots.update(i, Some(t)),
        next_id: before.next_id.wrapping_add(1),
        files: after.files,
        ..before
    }
    &&& match shared {
        Some(k) => t.files == k && after.files == before.files,
        None => {
            &&& t.files == free_table(before.slots, 0)
            &&& after.files == before.files.update(t.files as int, after.files[t.files as int])
            &&& after.files[t.files as int].empty()
        },
    }
}

/// What a new task's first switch pops: the six registers that are kept
/// across calls, and the address to go to.
pub open spec fn first_frame(to: u64, r12: u64, r13: u64) -> Seq<u64> {
    seq![0u64, 0u64, r13, r12, 0u64, 0u64, to]
}

impl TaskTable {
    /// A table without tasks.
    pub fn new(trampoline: u64, enter_user: u64) -> (r: TaskTable)
        ensures
            r.wf(),
            forall|i: int| 0 <= i < MAX_TASKS ==> #[trigger] r@.slots[i] is None,
            r@.current == 0,
            r@.next_id == 0,
            r@.kernel_cr3 == 0,
            forall|i: int| 0 <= i < MAX_TASKS ==> (#[trigger] r@.files[i]).empty(),
            r@.trampoline == trampoline,
            r@.enter_user == enter_user,
    {
        let mut slots: Vec<Option<Task>> = Vec::new();
        let mut files: Vec<FileTable> = Vec::new();
        for i in 0..MAX_TASKS
            invariant
                slots@.len() == i,
                files@.len() == i,
                forall|k: int| 0 <= k < i ==> #[trigger] slots@[k] is None,
                forall|k: int| 0 <= k < i ==> (#[trigger] files@[k]).empty(),
        {
            slots.push(None);
            files.push(FileTable::new());
        }
        TaskTable { slots, current: 0, next_id: 0, kernel_cr3: 0, files, trampoline, enter_user }
    }

    fn find_slot(&self) -> (r: Option<usize>)
        ensures
            match free_slot(self@.slots, 0) {
                Some(i) => r matches Some(x) && x == i && 0 <= i < self@.slots.len() && self@.slots[i] is None,
                None => r is None,
            },
    {
        let n: usize = self.slots.len();
        proof {
            lemma_free_slot(self@.slots, 0);
        }
        for i in 0..n
            invariant
                n == self@.slots.len(),
                free_slot(self@.slots, 0) == free_slot(self@.slots, i as int),
                free_slot(self@.slots, 0) matches Some(k) ==> 0 <= k < n && self@.slots[k] is None,
        {
            if self.slots[i].is_none() {
                return Some(i);
            }
        }
        None
    }

    fn takes_table(&self, k: usize) -> (r: bool)
        ensures
            r == table_taken(self@.slots, k as int),
    {
        let n: usize = self.slots.len();
        for i in 0..n
            invariant
                n == self@.slots.len(),
                forall|j: int| 0 <= j < i ==> !(#[trigger] self@.slots[j] matches Some(t) && t.files == k),
        {
            if let Some(t) = &self.slots[i] {
                if t.files == k {
                    assert(self@.slots[i as int] matches Some(t) && t.files == k);
                    return true;
                }
            }
        }
        false
    }

    fn find_table(&self) -> (r: usize)
        requires
            self.wf(),
            exists|i: int| 0 <= i < self@.slots.len() && #[trigger] self@.slots[i] is None,
        ensures
            r == free_table(self@.slots, 0),
            r < MAX_TASKS,
            !table_taken(self@.slots, r as int),
    {
        let mut k: usize = 0;
        proof {
            lemma_free_table(self@.slots, 0);
        }
        while self.takes_table(k)
            invariant
                self.wf(),
                free_table(self@.slots, 0) == free_table(self@.slots, k as int),
                k <= free_table(self@.slots, 0) < MAX_TASKS,
                !table_taken(self@.slots, free_table(self@.slots, 0)),
            decreases MAX_TASKS - k,
        {
            k += 1;
        }
        k
    }

    /// Adds a task in the first free slot.
    fn enrol(
        &mut self,
        name: &'static str,
        stack: Vec<u64>,
        top: u64,
        cr3: u64,
        heap_end: u64,
        fs_base: u64,
        child_tidptr: Option<u64>,
        exe_path: Vec<u8>,
        shared: Option<usize>,
    ) -> (r: Option<u64>)
        requires
            old(self).wf(),
            stack@.len() <= 32,
            8 * stack@.len() <= top,
            shared matches Some(k) ==> k < MAX_TASKS,
        ensures
            final(self).wf(),
            match free_slot(old(self)@.slots, 0) {
                None => r is None && final(self)@ == old(self)@,
                Some(i) => {
                    &&& r == Some(old(self)@.next_id)
                    &&& admitted(old(self)@, final(self)@, i, shared)
                    &&& spawned(
                        final(self)@.slots[i]->0,
                        old(self)@.next_id,
                        name,
                        stack@,
                        top,
                        cr3,
                        heap_end,
                        fs_base,
                        child_tidptr,
                        exe_path@,
                    )
                },
            },
    {
        let slot: usize = match self.find_slot() {
            Some(i) => i,
            None => {
                return None;
            },
        };
        let ghost before = self@;
        let files: usize = match shared {
            Some(k) => k,
            None => {
                assert(self@.slots[slot as int] is None);
                let k: usize = self.find_table();
                let table = FileTable::new();
                self.files[k] = table;
                k
            },
        };
        let id: u64 = self.next_id;
        self.next_id = self.next_id.wrapping_add(1);
        let saved_rsp: u64 = top - 8 * (stack.len() as u64);
        let handlers = fresh_handlers();
        self.slots[slot] = Some(
            Task {
                id,
                name,
                state: TaskState::Ready,
                saved_rsp,
                stack,
                kernel_stack_top: top,
                ticks_run: 0,
                cr3,
                heap_end,
                files,
                fs_base,
                futex_addr: None,
                wait_deadline: None,
                futex_timed_out: false,
                child_tidptr,
                sig_handlers: handlers,
                sig_delivering: None,
                sig_saved_ctx: None,
                exe_path,
            },
        );
        Some(id)
    }
}

fn fresh_handlers() -> (r: Vec<(u64, u64, u64)>)
    ensures
        no_handlers(r@),
{
    let mut h: Vec<(u64, u64, u64)> = Vec::new();
    for i in 0..NSIG
        invariant
            h@.len() == i,
            forall|k: int| 0 <= k < i ==> #[trigger] h@[k] == (0u64, 0u64, 0u64),
    {
        h.push((0, 0, 0));
    }
    h
}

fn frame_of(to: u64, r12: u64, r13: u64) -> (r: Vec<u64>)
    ensures
        r@ == first_frame(to, r12, r13),
{
    let r = vec![0, 0, r13, r12, 0, 0, to];
    assert(r@ =~= first_frame(to, r12, r13));
    r
}

/// Sets the table up: whatever is running now becomes the first task, in the
/// kernel's address space.
pub fn init(tasks: &mut TaskTable, mem: &Memory)
    requires
        old(tasks).wf(),
        forall|i: int| 0 <= i < MAX_TASKS ==> #[trigger] old(tasks)@.slots[i] is None,
    ensures
        final(tasks).wf(),
        final(tasks)@.current == 0,
        final(tasks)@.kernel_cr3 == target(mem.cr3),
        final(tasks)@.next_id == old(tasks)@.next_id.wrapping_add(1),
        final(tasks)@.trampoline == old(tasks)@.trampoline,
        final(tasks)@.enter_user == old(tasks)@.enter_user,
        forall|i: int| 1 <= i < MAX_TASKS ==> #[trigger] final(tasks)@.slots[i] is None,
        final(tasks)@.slots[0] matches Some(t) && {
            &&& t.state == TaskState::Running
            &&& t.files == 0
            &&& final(tasks)@.files[0].empty()
            &&& final(tasks)@.files == old(tasks)@.files.update(0, final(tasks)@.files[0])
            &&& spawned(
                (Task { state: TaskState::Ready, ..t }),
                old(tasks)@.next_id,
                "shell",
                Seq::empty(),
                0,
                target(mem.cr3),
                USER_HEAP_BASE,
                0,
                None,
                Seq::empty(),
            )
        },
{
    tasks.kernel_cr3 = crate::paging::current_cr3(mem);
    let cr3: u64 = tasks.kernel_cr3;
    proof {
        assert(free_slot(tasks@.slots, 0) == Some(0int));
        assert(!table_taken(tasks@.slots, 0));
        assert(free_table(tasks@.slots, 0) == 0);
    }
    let id = tasks.enrol("shell", Vec::new(), 0, cr3, USER_HEAP_BASE, 0, None, Vec::new(), None);
    if let Some(task) = &mut tasks.slots[0] {
        task.state = TaskState::Running;
    }
    tasks.current = 0;
}

/// How many bytes the kernel stack of a task takes that asks for `size`.
pub open spec fn stack_bytes(size: int) -> int {
    (size + 15) / 16 * 16
}

/// Adds a kernel thread that starts at `entry`, with a stack of the usual
/// size at `base`.
pub fn spawn(tasks: &mut TaskTable, name: &'static str, entry: u64, base: u64) -> (r: Option<u64>)
    requires
        old(tasks).wf(),
        base + STACK_SIZE <= u64::MAX,
    ensures
        final(tasks).wf(),
        match free_slot(old(tasks)@.slots, 0) {
            None => r is None && final(tasks)@ == old(tasks)@,
            Some(i) => {
                &&& r == Some(old(tasks)@.next_id)
                &&& admitted(old(tasks)@, final(tasks)@, i, None)
                &&& spawned(
                    final(tasks)@.slots[i]->0,
                    old(tasks)@.next_id,
                    name,
                    first_frame(old(tasks)@.trampoline, entry, 0),
                    (base + STACK_SIZE) as u64,
                    old(tasks)@.kernel_cr3,
                    USER_HEAP_BASE,
                    0,
                    None,
                    Seq::empty(),
                )
            },
        },
{
    spawn_with_stack(tasks, name, entry, STACK_SIZE, base)
}

/// Adds a kernel thread that starts at `entry`, with a stack of `stack_size`
/// bytes, rounded up to a multiple of 16, at `base`.
pub fn spawn_with_stack(
    tasks: &mut TaskTable,
    name: &'static str,
    entry: u64,
    stack_size: usize,
    base: u64,
) -> (r: Option<u64>)
    requires
        old(tasks).wf(),
        stack_size >= 56,
        base + stack_bytes(stack_size as int) <= u64::MAX,
    ensures
        final(tasks).wf(),
        match free_slot(old(tasks)@.slots, 0) {
            None => r is None && final(tasks)@ == old(tasks)@,
            Some(i) => {
                &&& r == Some(old(tasks)@.next_id)
                &&& admitted(old(tasks)@, final(tasks)@, i, None)
                &&& spawned(
                    final(tasks)@.slots[i]->0,
                    old(tasks)@.next_id,
                    name,
                    first_frame(old(tasks)@.trampoline, entry, 0),
                    (base + stack_bytes(stack_size as int)) as u64,
                    old(tasks)@.kernel_cr3,
                    USER_HEAP_BASE,
                    0,
                    None,
                    Seq::empty(),
                )
            },
        },
{
    let size: u128 = (stack_size as u128 + 15) / 16 * 16;
    let top: u64 = (base as u128 + size) as u64;
    let stack = frame_of(tasks.trampoline, entry, 0);
    let cr3: u64 = tasks.kernel_cr3;
    tasks.enrol(name, stack, top, cr3, USER_HEAP_BASE, 0, None, Vec::new(), None)
}

/// Adds a user program that starts at `entry_virt` in its own address space,
/// with its kernel stack at `base`.
pub fn spawn_user(
    tasks: &mut TaskTable,
    name: &'static str,
    exe_path: Vec<u8>,
    entry_virt: u64,
    user_stack_top: u64,
    cr3: u64,
    base: u64,
) -> (r: Option<u64>)
    requires
        old(tasks).wf(),
        base + STACK_SIZE <= u64::MAX,
    ensures
        final(tasks).wf(),
        match free_slot(old(tasks)@.slots, 0) {
            None => r is None && final(tasks)@ == old(tasks)@,
            Some(i) => {
                &&& r == Some(old(tasks)@.next_id)
                &&& admitted(old(tasks)@, final(tasks)@, i, None)
                &&& spawned(
                    final(tasks)@.slots[i]->0,
                    old(tasks)@.next_id,
                    name,
                    first_frame(old(tasks)@.enter_user, entry_virt, user_stack_top),
                    (base + STACK_SIZE) as u64,
                    cr3,
                    USER_HEAP_BASE,
                    0,
                    None,
                    exe_path@,
                )
            },
        },
{
    let top: u64 = base + STACK_SIZE as u64;
    let stack = frame_of(tasks.enter_user, entry_virt, user_stack_top);
    tasks.enrol(name, stack, top, cr3, USER_HEAP_BASE, 0, None, exe_path, None)
}

/// Adds a thread to the running program: it starts at `entry_virt` in the
/// same address space, with files of its own.
pub fn spawn_thread(tasks: &mut TaskTable, name: &'static str, entry_virt: u64, stack_top: u64, base: u64) -> (r:
    Option<u64>)
    requires
        old(tasks).wf(),
        base + STACK_SIZE <= u64::MAX,
    ensures
        final(tasks).wf(),
        match (old(tasks)@.running(), free_slot(old(tasks)@.slots, 0)) {
            (Some(parent), Some(i)) => {
                &&& r == Some(old(tasks)@.next_id)
                &&& admitted(old(tasks)@, final(tasks)@, i, None)
                &&& spawned(
                    final(tasks)@.slots[i]->0,
                    old(tasks)@.next_id,
                    name,
                    first_frame(old(tasks)@.enter_user, entry_virt, stack_top),
                    (base + STACK_SIZE) as u64,
                    parent.cr3,
                    parent.heap_end,
                    parent.fs_base,
                    None,
                    parent.exe_path@,
                )
            },
            _ => r is None && final(tasks)@ == old(tasks)@,
        },
{
    let top: u64 = base + STACK_SIZE as u64;
    let stack = frame_of(tasks.enter_user, entry_virt, stack_top);
    let (cr3, heap_end, fs_base, exe_path) = match &tasks.slots[tasks.current] {
        Some(parent) => (parent.cr3, parent.heap_end, parent.fs_base, slice_to_vec(parent.exe_path.as_slice())),
        None => {
            return None;
        },
    };
    tasks.enrol(name, stack, top, cr3, heap_end, fs_base, None, exe_path, None)
}

/// Adds a copy of the running task that resumes at `resume_addr` with `frame`
/// on its kernel stack and shares the running task's files.
pub fn spawn_clone_raw(
    tasks: &mut TaskTable,
    name: &'static str,
    resume_addr: u64,
    frame: [u64; 16],
    cr3: u64,
    heap_end: u64,
    fs_base: u64,
    child_tidptr: Option<u64>,
    exe_path: Vec<u8>,
    base: u64,
) -> (r: Option<u64>)
    requires
        old(tasks).wf(),
        old(tasks)@.running() is Some,
        base + STACK_SIZE <= u64::MAX,
    ensures
        final(tasks).wf(),
        match free_slot(old(tasks)@.slots, 0) {
            None => r is None && final(tasks)@ == old(tasks)@,
            Some(i) => {
                &&& r == Some(old(tasks)@.next_id)
                &&& admitted(old(tasks)@, final(tasks)@, i, Some((old(tasks)@.running()->0).files))
                &&& spawned(
                    final(tasks)@.slots[i]->0,
                    old(tasks)@.next_id,
                    name,
                    first_frame(resume_addr, 0, 0) + frame@,
                    (base + STACK_SIZE) as u64,
                    cr3,
                    heap_end,
                    fs_base,
                    child_tidptr,
                    exe_path@,
                )
            },
        },
{
    let top: u64 = base + STACK_SIZE as u64;
    let mut stack = frame_of(resume_addr, 0, 0);
    let ghost lower = stack@;
    for i in 0..16usize
        invariant
            stack@ == lower + frame@.take(i as int),
    {
        stack.push(frame[i]);
        assert(stack@ =~= lower + frame@.take(i + 1));
    }
    assert(frame@.take(16) =~= frame@);
    let files: usize = match &tasks.slots[tasks.current] {
        Some(parent) => parent.files,
        None => {
            return None;
        },
    };
    tasks.enrol(name, stack, top, cr3, heap_end, fs_base, child_tidptr, exe_path, Some(files))
}

// ---- Ending tasks ----

/// A task that has ended; nothing but its state tells.
pub open spec fn ended(t: Task) -> Task {
    Task { state: TaskState::Terminated, ..t }
}

/// Ends the running task. Returns the address, if there is one, at which the
/// task's owner waits for a zero: tasks that wait there are woken.
pub fn task_exit(tasks: &mut TaskTable) -> (r: Option<u64>)
    requires
        old(tasks).wf(),
    ensures
        final(tasks).wf(),
        match old(tasks)@.running() {
            None => r is None && final(tasks)@ == old(tasks)@,
            Some(t) => {
                let left = old(tasks)@.with(Task { child_tidptr: None, ..ended(t) });
                &&& r == t.child_tidptr
                &&& match t.child_tidptr {
                    None => final(tasks)@ == left,
                    Some(p) => final(tasks)@ == (Tasks {
                        slots: woken(left.slots, p, u32::MAX as int, MAX_TASKS as int),
                        ..left
                    }),
                }
            },
        },
{
    let mut ptr: Option<u64> = None;
    let ghost before = tasks@;
    let current: usize = tasks.current;
    if let Some(task) = &mut tasks.slots[current] {
        task.state = TaskState::Terminated;
        ptr = task.child_tidptr;
        task.child_tidptr = None;
    }
    proof {
        if let Some(t) = before.running() {
            assert(tasks@.slots =~= before.with(Task { child_tidptr: None, ..ended(t) }).slots);
        } else {
            assert(tasks@.slots =~= before.slots);
        }
    }
    if let Some(p) = ptr {
        futex_wake(tasks, p, u32::MAX);
    }
    ptr
}

/// Ends the running task.
pub fn exit_current(tasks: &mut TaskTable) -> (r: Option<u64>)
    requires
        old(tasks).wf(),
    ensures
        final(tasks).wf(),
        match old(tasks)@.running() {
            None => r is None && final(tasks)@ == old(tasks)@,
            Some(t) => {
                let left = old(tasks)@.with(Task { child_tidptr: None, ..ended(t) });
                &&& r == t.child_tidptr
                &&& match t.child_tidptr {
                    None => final(tasks)@ == left,
                    Some(p) => final(tasks)@ == (Tasks {
                        slots: woken(left.slots, p, u32::MAX as int, MAX_TASKS as int),
                        ..left
                    }),
                }
            },
        },
{
    task_exit(tasks)
}

/// The first slot from `from` on whose task has the number `id` and has not
/// ended.
pub open spec fn living(slots: Seq<Option<Task>>, id: u64, from: int) -> Option<int>
    decreases slots.len() - from,
{
    if from >= slots.len() {
        None
    } else if slots[from] matches Some(t) && t.id == id && t.state != TaskState::Terminated {
        Some(from)
    } else {
        living(slots, id, from + 1)
    }
}

pub proof fn lemma_living(slots: Seq<Option<Task>>, id: u64, from: int)
    requires
        0 <= from <= slots.len(),
    ensures
        living(slots, id, from) matches Some(i) ==> from <= i < slots.len(),
    decreases slots.len() - from,
{
    if from < slots.len() {
        lemma_living(slots, id, from + 1);
    }
}

/// Ends the task with the number `id`. Returns whether there was one.
pub fn kill(tasks: &mut TaskTable, id: u64) -> (r: bool)
    requires
        old(tasks).wf(),
    ensures
        final(tasks).wf(),
        match living(old(tasks)@.slots, id, 0) {
            None => !r && final(tasks)@ == old(tasks)@,
            Some(i) => r && final(tasks)@ == (Tasks {
                slots: old(tasks)@.slots.update(i, Some(ended(old(tasks)@.slots[i]->0))),
                ..old(tasks)@
            }),
        },
{
    let ghost s = tasks@;
    for i in 0..MAX_TASKS
        invariant
            tasks.wf(),
            tasks@ == s,
            s == old(tasks)@,
            living(s.slots, id, 0) == living(s.slots, id, i as int),
    {
        let mut found: bool = false;
        if let Some(task) = &mut tasks.slots[i] {
            if task.id == id && task.state != TaskState::Terminated {
                task.state = TaskState::Terminated;
                found = true;
            }
        }
        if found {
            assert(tasks@.slots =~= s.slots.update(i as int, Some(ended(s.slots[i as int]->0))));
            return true;
        }
        assert(tasks@.slots =~= s.slots);
    }
    false
}

/// The table after the tasks of one address space, but for the one with the
/// number `except`, have been ended.
pub open spec fn group_ended(slots: Seq<Option<Task>>, cr3: u64, except: u64) -> Seq<Option<Task>> {
    Seq::new(
        slots.len(),
        |i: int|
            match slots[i] {
                Some(t) => if t.id != except && t.cr3 == cr3 {
                    Some(ended(t))
                } else {
                    Some(t)
                },
                None => None,
            },
    )
}

/// Ends the tasks of one address space, but for the one with the number
/// `except`.
pub fn kill_group(tasks: &mut TaskTable, cr3: u64, except: u64)
    requires
        old(tasks).wf(),
    ensures
        final(tasks).wf(),
        final(tasks)@ == (Tasks { slots: group_ended(old(tasks)@.slots, cr3, except), ..old(tasks)@ }),
{
    let ghost s = tasks@;
    let ghost goal = group_ended(s.slots, cr3, except);
    for i in 0..MAX_TASKS
        invariant
            tasks.wf(),
            s.wf(),
            goal == group_ended(s.slots, cr3, except),
            tasks@ == (Tasks { slots: tasks@.slots, ..s }),
            forall|k: int|
                0 <= k < MAX_TASKS ==> #[trigger] tasks@.slots[k] == if k < i {
                    goal[k]
                } else {
                    s.slots[k]
                },
    {
        assert(tasks@.slots[i as int] == s.slots[i as int]);
        if let Some(task) = &mut tasks.slots[i] {
            if task.id != except && task.cr3 == cr3 && task.state != TaskState::Terminated {
                task.state = TaskState::Terminated;
            }
        }
    }
    assert(tasks@.slots =~= goal);
}

// ---- Waiting and waking ----

/// A task that has been woken from waiting at an address.
pub open spec fn roused(t: Task) -> Task {
    Task {
        state: TaskState::Ready,
        futex_addr: None,
        wait_deadline: None,
        futex_timed_out: false,
        ..t
    }
}

pub open spec fn waits_at(t: Option<Task>, addr: u64) -> bool {
    t matches Some(x) && x.state == TaskState::Blocked && x.futex_addr == Some(addr)
}

/// How many of the first `n` tasks wait at an address.
pub open spec fn waiters(slots: Seq<Option<Task>>, addr: u64, n: int) -> nat
    decreases n,
{
    if n <= 0 {
        0
    } else {
        waiters(slots, addr, n - 1) + if waits_at(slots[n - 1], addr) {
            1nat
        } else {
            0nat
        }
    }
}

/// The table after the first `max` of the tasks in the first `n` slots that
/// wait at an address have been woken.
pub open spec fn woken(slots: Seq<Option<Task>>, addr: u64, max: int, n: int) -> Seq<Option<Task>> {
    Seq::new(
        slots.len(),
        |i: int|
            if i < n && waits_at(slots[i], addr) && waiters(slots, addr, i) < max {
                Some(roused(slots[i]->0))
            } else {
                slots[i]
            },
    )
}

/// Wakes up to `max` tasks that wait at an address, in the order of their
/// slots, and returns how many that was.
pub fn futex_wake(tasks: &mut TaskTable, addr: u64, max: u32) -> (r: u32)
    requires
        old(tasks).wf(),
    ensures
        final(tasks).wf(),
        final(tasks)@ == (Tasks {
            slots: woken(old(tasks)@.slots, addr, max as int, MAX_TASKS as int),
            ..old(tasks)@
        }),
        r == min(waiters(old(tasks)@.slots, addr, MAX_TASKS as int) as int, max as int),
{
    let ghost s = tasks@;
    let mut count: u32 = 0;
    for i in 0..MAX_TASKS
        invariant
            tasks.wf(),
            s.wf(),
            tasks@ == (Tasks { slots: tasks@.slots, ..s }),
            count <= i,
            count == min(waiters(s.slots, addr, i as int) as int, max as int),
            forall|k: int|
                0 <= k < MAX_TASKS ==> #[trigger] tasks@.slots[k] == woken(s.slots, addr, max as int, i as int)[k],
    {
        assert(tasks@.slots[i as int] == s.slots[i as int]);
        if count < max {
            if let Some(task) = &mut tasks.slots[i] {
                if task.state == TaskState::Blocked && is_at(task.futex_addr, addr) {
                    task.state = TaskState::Ready;
                    task.futex_addr = None;
                    task.wait_deadline = None;
                    task.futex_timed_out = false;
                    count += 1;
                }
            }
        }
        assert(waiters(s.slots, addr, i + 1) == waiters(s.slots, addr, i as int) + if waits_at(
            s.slots[i as int],
            addr,
        ) {
            1nat
        } else {
            0nat
        });
    }
    assert(tasks@.slots =~= woken(s.slots, addr, max as int, MAX_TASKS as int));
    count
}

fn is_at(place: Option<u64>, addr: u64) -> (r: bool)
    ensures
        r == (place == Some(addr)),
{
    match place {
        Some(a) => a == addr,
        None => false,
    }
}

/// The running task, blocked until something happens at `addr` or the clock
/// reaches `deadline`.
pub open spec fn blocked(t: Task, addr: Option<u64>, deadline: Option<u64>) -> Task {
    Task {
        state: TaskState::Blocked,
        futex_addr: addr,
        wait_deadline: deadline,
        futex_timed_out: false,
        ..t
    }
}

/// Starts a wait: returns true if the deadline has passed already, and blocks
/// the running task otherwise.
fn block_until(tasks: &mut TaskTable, addr: Option<u64>, deadline: Option<u64>, now: u64) -> (r: bool)
    requires
        old(tasks).wf(),
    ensures
        final(tasks).wf(),
        r == (deadline matches Some(end) && now >= end),
        final(tasks)@ == match old(tasks)@.running() {
            Some(t) if !r => old(tasks)@.with(blocked(t, addr, deadline)),
            _ => old(tasks)@,
        },
{
    if let Some(end) = deadline {
        if now >= end {
            return true;
        }
    }
    let ghost before = tasks@;
    let current: usize = tasks.current;
    if let Some(task) = &mut tasks.slots[current] {
        task.state = TaskState::Blocked;
        task.futex_addr = addr;
        task.wait_deadline = deadline;
        task.futex_timed_out = false;
    }
    proof {
        if let Some(t) = before.running() {
            assert(tasks@.slots =~= before.with(blocked(t, addr, deadline)).slots);
        } else {
            assert(tasks@.slots =~= before.slots);
        }
    }
    false
}

/// Starts a wait of the running task at `addr`. Returns whether the deadline
/// has passed already; if it has not, the task is blocked, and the caller
/// schedules until [`wait_step`] tells that the wait is over.
pub fn futex_wait(tasks: &mut TaskTable, addr: u64, deadline: Option<u64>, now: u64) -> (r: bool)
    requires
        old(tasks).wf(),
    ensures
        final(tasks).wf(),
        r == (deadline matches Some(end) && now >= end),
        final(tasks)@ == match old(tasks)@.running() {
            Some(t) if !r => old(tasks)@.with(blocked(t, Some(addr), deadline)),
            _ => old(tasks)@,
        },
{
    block_until(tasks, Some(addr), deadline, now)
}

/// Starts a sleep of the running task. Returns whether it is over already; if
/// not, it goes on as a wait that nothing wakes.
pub fn sleep_until(tasks: &mut TaskTable, deadline: u64, now: u64) -> (r: bool)
    requires
        old(tasks).wf(),
    ensures
        final(tasks).wf(),
        r == (now >= deadline),
        final(tasks)@ == match old(tasks)@.running() {
            Some(t) if !r => old(tasks)@.with(blocked(t, None, Some(deadline))),
            _ => old(tasks)@,
        },
{
    block_until(tasks, None, Some(deadline), now)
}

/// How far a wait of the running task has got: it goes on, it was ended by a
/// wake, or its deadline has passed.
#[derive(Clone, Copy, PartialEq, Eq, Structural, Debug)]
pub enum WaitState {
    Waiting,
    Woken,
    Expired,
}

/// Where the wait of a task stands. A task that has been ended does not come
/// back from its wait.
pub open spec fn wait_state(t: Task) -> WaitState {
    if t.state == TaskState::Blocked || t.state == TaskState::Terminated {
        WaitState::Waiting
    } else if t.futex_timed_out {
        WaitState::Expired
    } else {
        WaitState::Woken
    }
}

/// Tells where the wait of the running task stands, after a round of
/// scheduling has come back to it. While it goes on the caller schedules
/// again: where no other task is ready, the one that waits is gone back to.
/// How the wait ended is told once.
pub fn wait_step(tasks: &mut TaskTable) -> (r: WaitState)
    requires
        old(tasks).wf(),
    ensures
        final(tasks).wf(),
        match old(tasks)@.running() {
            Some(t) => r == wait_state(t) && final(tasks)@ == if r == WaitState::Expired {
                old(tasks)@.with(Task { futex_timed_out: false, ..t })
            } else {
                old(tasks)@
            },
            None => r == WaitState::Waiting && final(tasks)@ == old(tasks)@,
        },
{
    let mut r: WaitState = WaitState::Waiting;
    let ghost before = tasks@;
    let current: usize = tasks.current;
    if let Some(task) = &mut tasks.slots[current] {
        if task.state != TaskState::Blocked && task.state != TaskState::Terminated {
            if task.futex_timed_out {
                task.futex_timed_out = false;
                r = WaitState::Expired;
            } else {
                r = WaitState::Woken;
            }
        }
    }
    proof {
        if r == WaitState::Expired {
            let t = before.running()->0;
            assert(tasks@.slots =~= before.with(Task { futex_timed_out: false, ..t }).slots);
        } else {
            assert(tasks@.slots =~= before.slots);
        }
    }
    r
}

// ---- Scheduling ----

/// A task whose wait has timed out.
pub open spec fn timed_out(t: Task) -> Task {
    Task {
        state: TaskState::Ready,
        futex_addr: None,
        wait_deadline: None,
        futex_timed_out: true,
        ..t
    }
}

pub open spec fn overdue(t: Option<Task>, now: u64) -> bool {
    t matches Some(x) && x.state == TaskState::Blocked && (x.wait_deadline matches Some(d) && now >= d)
}

/// The table after every wait that is over by `now` has timed out.
pub open spec fn expired(slots: Seq<Option<Task>>, now: u64) -> Seq<Option<Task>> {
    Seq::new(
        slots.len(),
        |i: int|
            if overdue(slots[i], now) {
                Some(timed_out(slots[i]->0))
            } else {
                slots[i]
            },
    )
}

/// Whether slot `i` holds a task that has ended and is not running.
pub open spec fn dead(slots: Seq<Option<Task>>, current: int, i: int) -> bool {
    i != current && (slots[i] matches Some(t) && t.state == TaskState::Terminated)
}

/// Whether a task other than the one in slot `i` lives in an address space.
pub open spec fn shared(slots: Seq<Option<Task>>, i: int, cr3: u64) -> bool {
    exists|j: int|
        0 <= j < slots.len() && j != i && (#[trigger] slots[j] matches Some(o) && o.cr3 == cr3)
}

/// The tasks, the regions and the frames that are left after the dead among
/// the first `n` slots have been removed, each with its address space if it
/// was the last one there.
pub open spec fn reaped(
    slots: Seq<Option<Task>>,
    regions: Table,
    frames: Frames,
    ram: Seq<u64>,
    current: int,
    kernel: u64,
    n: int,
) -> (Seq<Option<Task>>, Table, Frames)
    decreases n,
{
    if n <= 0 {
        (slots, regions, frames)
    } else {
        let (s, t, f) = reaped(slots, regions, frames, ram, current, kernel, n - 1);
        if dead(s, current, n - 1) {
            let cr3 = (s[n - 1]->0).cr3;
            if cr3 != kernel && !shared(s, n - 1, cr3) {
                (s.update(n - 1, None), without_space(t, cr3), without_tree(f, ram, cr3, 4, 256))
            } else {
                (s.update(n - 1, None), t, f)
            }
        } else {
            (s, t, f)
        }
    }
}

/// Whether the task in slot `i` may run next.
pub open spec fn eligible(slots: Seq<Option<Task>>, current: int, i: int) -> bool {
    slots[i] matches Some(t) && (t.state == TaskState::Ready || (i == current && t.state == TaskState::Running))
}

/// The first slot whose task may run next, going round from the current one
/// on, starting `offset` slots after it; the current one if there is none.
pub open spec fn next_slot(slots: Seq<Option<Task>>, current: int, offset: int) -> int
    decreases MAX_TASKS + 1 - offset,
{
    if offset > MAX_TASKS {
        current
    } else if eligible(slots, current, (current + offset) % MAX_TASKS as int) {
        (current + offset) % MAX_TASKS as int
    } else {
        next_slot(slots, current, offset + 1)
    }
}

/// The table after a switch from slot `from` to slot `to`.
pub open spec fn switched(slots: Seq<Option<Task>>, from: int, to: int) -> Seq<Option<Task>> {
    let left = match slots[from] {
        Some(t) => slots.update(
            from,
            Some(
                Task {
                    state: if t.state == TaskState::Running {
                        TaskState::Ready
                    } else {
                        t.state
                    },
                    ..t
                },
            ),
        ),
        None => slots,
    };
    let t = slots[to]->0;
    left.update(to, Some(Task { state: TaskState::Running, ticks_run: t.ticks_run.wrapping_add(1), ..t }))
}

/// What is to be done to switch tasks: the slots, the stack pointer to go on
/// with, the kernel stack for interrupts if the task has one, the address
/// space to load if it is another one, and the thread pointer.
pub struct Switch {
    pub from: usize,
    pub to: usize,
    pub rsp: u64,
    pub kernel_stack: Option<u64>,
    pub cr3: Option<u64>,
    pub fs_base: u64,
}

/// Every address space that reaping may tear down has its tables in order.
pub open spec fn spaces_known(tasks: Tasks, mem: Mem) -> bool {
    forall|i: int|
        0 <= i < MAX_TASKS ==> (#[trigger] tasks.slots[i] matches Some(t) ==> t.state == TaskState::Terminated
            && t.cr3 != tasks.kernel_cr3 ==> known(mem.ram, mem.frames.used.len(), t.cr3, 4, 256))
}

impl TaskTable {
    fn expire(&mut self, now: u64)
        requires
            old(self).wf(),
        ensures
            final(self).wf(),
            final(self)@ == (Tasks { slots: expired(old(self)@.slots, now), ..old(self)@ }),
    {
        let ghost s = self@;
        for i in 0..MAX_TASKS
            invariant
                self.wf(),
                s.wf(),
                self@ == (Tasks { slots: self@.slots, ..s }),
                forall|k: int|
                    0 <= k < MAX_TASKS ==> #[trigger] self@.slots[k] == if k < i {
                        expired(s.slots, now)[k]
                    } else {
                        s.slots[k]
                    },
        {
            assert(self@.slots[i as int] == s.slots[i as int]);
            if let Some(task) = &mut self.slots[i] {
                let over: bool = match task.wait_deadline {
                    Some(d) => now >= d,
                    None => false,
                };
                if task.state == TaskState::Blocked && over {
                    task.state = TaskState::Ready;
                    task.futex_addr = None;
                    task.wait_deadline = None;
                    task.futex_timed_out = true;
                }
            }
        }
        assert(self@.slots =~= expired(s.slots, now));
    }

    fn is_shared(&self, i: usize, cr3: u64) -> (r: bool)
        ensures
            r == shared(self@.slots, i as int, cr3),
    {
        let n: usize = self.slots.len();
        for j in 0..n
            invariant
                n == self@.slots.len(),
                forall|k: int|
                    0 <= k < j && k != i ==> !(#[trigger] self@.slots[k] matches Some(o) && o.cr3 == cr3),
        {
            if j != i {
                if let Some(o) = &self.slots[j] {
                    if o.cr3 == cr3 {
                        assert(self@.slots[j as int] matches Some(o) && o.cr3 == cr3);
                        return true;
                    }
                }
            }
        }
        false
    }

    fn reap(&mut self, regions: &mut Regions, mem: &mut Memory)
        requires
            old(self).wf(),
            old(regions).wf(),
            old(mem).wf(),
            old(mem).pmm.ready(),
            spaces_known(old(self)@, old(mem)@),
        ensures
            final(self).wf(),
            final(regions).wf(),
            final(mem).wf(),
            final(mem).pmm.ready(),
            final(mem).pmm.offset() == old(mem).pmm.offset(),
            final(mem).ram == old(mem).ram,
            final(mem).cr3 == old(mem).cr3,
            final(mem).nx == old(mem).nx,
            ({
                let (s, t, f) = reaped(
                    old(self)@.slots,
                    old(regions)@,
                    old(mem)@.frames,
                    old(mem).ram@,
                    old(self)@.current,
                    old(self)@.kernel_cr3,
                    MAX_TASKS as int,
                );
                &&& final(self)@ == (Tasks { slots: s, ..old(self)@ })
                &&& final(regions)@ == t
                &&& final(mem)@.frames == f
            }),
    {
        let ghost s = self@;
        let ghost t = regions@;
        let ghost f = mem@.frames;
        for i in 0..MAX_TASKS
            invariant
                self.wf(),
                s.wf(),
                regions.wf(),
                mem.wf(),
                mem.pmm.ready(),
                mem.pmm.offset() == old(mem).pmm.offset(),
                mem.ram == old(mem).ram,
                mem.cr3 == old(mem).cr3,
                mem.nx == old(mem).nx,
                mem@.frames.used.len() == f.used.len(),
                spaces_known(s, (Mem { ram: mem.ram@, frames: f })),
                self@ == (Tasks { slots: self@.slots, ..s }),
                forall|k: int| i <= k < MAX_TASKS ==> #[trigger] self@.slots[k] == s.slots[k],
                (self@.slots, regions@, mem@.frames) == reaped(
                    s.slots,
                    t,
                    f,
                    mem.ram@,
                    s.current,
                    s.kernel_cr3,
                    i as int,
                ),
        {
            assert(self@.slots[i as int] == s.slots[i as int]);
            if i != self.current {
                let mut gone: Option<u64> = None;
                if let Some(task) = &self.slots[i] {
                    if task.state == TaskState::Terminated {
                        gone = Some(task.cr3);
                    }
                }
                if let Some(cr3) = gone {
                    if cr3 != self.kernel_cr3 && !self.is_shared(i, cr3) {
                        destroy_address_space(mem, regions, cr3);
                    }
                    self.slots[i] = None;
                }
            }
        }
    }

    fn next(&self) -> (r: usize)
        requires
            self.wf(),
        ensures
            r == next_slot(self@.slots, self@.current, 1),
            r < MAX_TASKS,
            r != self.current ==> eligible(self@.slots, self@.current, r as int),
    {
        let mut offset: usize = 1;
        while offset <= MAX_TASKS
            invariant
                self.wf(),
                1 <= offset <= MAX_TASKS + 1,
                next_slot(self@.slots, self@.current, 1) == next_slot(self@.slots, self@.current, offset as int),
            decreases MAX_TASKS + 1 - offset,
        {
            let candidate: usize = (self.current + offset) % MAX_TASKS;
            if let Some(task) = &self.slots[candidate] {
                if task.state == TaskState::Ready || (candidate == self.current && task.state
                    == TaskState::Running) {
                    return candidate;
                }
            }
            offset += 1;
        }
        self.current
    }
}

/// The tasks after a round of scheduling at time `now`, with the regions and
/// the frames, and the slot that is to run.
pub open spec fn scheduled(tasks: Tasks, regions: Table, mem: Mem, now: u64) -> (Tasks, Table, Frames) {
    let (s, t, f) = reaped(
        expired(tasks.slots, now),
        regions,
        mem.frames,
        mem.ram,
        tasks.current,
        tasks.kernel_cr3,
        MAX_TASKS as int,
    );
    let next = next_slot(s, tasks.current, 1);
    if next == tasks.current {
        (Tasks { slots: s, ..tasks }, t, f)
    } else {
        (Tasks { slots: switched(s, tasks.current, next), current: next, ..tasks }, t, f)
    }
}

/// What switching from the task that ran before to the one that runs now
/// takes: its stack pointer, the stack for interrupts if it has one, its
/// address space if that is another than the one in use, and its thread
/// pointer.
pub open spec fn switch_from(before: Tasks, now: Tasks, cr3: u64) -> Option<Switch> {
    let t = now.running()->0;
    if now.current == before.current {
        None
    } else {
        Some(
            Switch {
                from: before.current as usize,
                to: now.current as usize,
                rsp: t.saved_rsp,
                kernel_stack: if t.kernel_stack_top != 0 {
                    Some(t.kernel_stack_top)
                } else {
                    None
                },
                cr3: if t.cr3 != target(cr3) {
                    Some(t.cr3)
                } else {
                    None
                },
                fs_base: t.fs_base,
            },
        )
    }
}

/// The address space in use after a switch.
pub open spec fn loaded_after(switch: Option<Switch>, cr3: u64) -> u64 {
    match switch {
        Some(Switch { cr3: Some(other), .. }) => other,
        _ => cr3,
    }
}

/// Decides which task runs next. Waits that are over end, tasks that have
/// ended are removed with their address spaces, and the next ready task after
/// the running one, going round, is chosen. Returns what is to be done to
/// switch to it, or `None` if the running task goes on.
pub fn schedule(tasks: &mut TaskTable, regions: &mut Regions, mem: &mut Memory, now: u64) -> (r: Option<Switch>)
    requires
        old(tasks).wf(),
        old(regions).wf(),
        old(mem).wf(),
        old(mem).pmm.ready(),
        spaces_known(old(tasks)@, old(mem)@),
    ensures
        final(tasks).wf(),
        final(regions).wf(),
        final(mem).wf(),
        final(mem).pmm.ready(),
        final(mem).pmm.offset() == old(mem).pmm.offset(),
        final(mem).ram == old(mem).ram,
        final(mem).nx == old(mem).nx,
        (final(tasks)@, final(regions)@, final(mem)@.frames) == scheduled(
            old(tasks)@,
            old(regions)@,
            old(mem)@,
            now,
        ),
        r == switch_from(old(tasks)@, final(tasks)@, old(mem).cr3),
        final(mem).cr3 == loaded_after(r, old(mem).cr3),
        r is Some ==> final(tasks)@.running() is Some,
{
    let ghost before = tasks@;
    tasks.expire(now);
    assert(spaces_known(tasks@, mem@)) by {
        assert forall|i: int| 0 <= i < MAX_TASKS implies (#[trigger] tasks@.slots[i] matches Some(t)
            ==> t.state == TaskState::Terminated && t.cr3 != tasks@.kernel_cr3 ==> known(
            mem@.ram,
            mem@.frames.used.len(),
            t.cr3,
            4,
            256,
        )) by {
            assert(before.slots[i] is Some ==> tasks@.slots[i] is Some);
        }
    }
    tasks.reap(regions, mem);
    let ghost left = tasks@;
    let next: usize = tasks.next();
    let from: usize = tasks.current;
    if next == from {
        return None;
    }
    if let Some(task) = &mut tasks.slots[from] {
        if task.state == TaskState::Running {
            task.state = TaskState::Ready;
        }
    }
    let mut rsp: u64 = 0;
    let mut top: u64 = 0;
    let mut cr3: u64 = 0;
    let mut fs_base: u64 = 0;
    if let Some(task) = &mut tasks.slots[next] {
        task.state = TaskState::Running;
        task.ticks_run = task.ticks_run.wrapping_add(1);
        rsp = task.saved_rsp;
        top = task.kernel_stack_top;
        cr3 = task.cr3;
        fs_base = task.fs_base;
    }
    tasks.current = next;
    assert(tasks@.slots =~= switched(left.slots, left.current, next as int));
    let kernel_stack: Option<u64> = if top != 0 {
        Some(top)
    } else {
        None
    };
    let load: Option<u64> = if cr3 != crate::paging::current_cr3(mem) {
        mem.cr3 = cr3;
        Some(cr3)
    } else {
        None
    };
    Some(Switch { from, to: next, rsp, kernel_stack, cr3: load, fs_base })
}

/// Gives the processor to the next ready task.
pub fn yield_now(tasks: &mut TaskTable, regions: &mut Regions, mem: &mut Memory, now: u64) -> (r: Option<Switch>)
    requires
        old(tasks).wf(),
        old(regions).wf(),
        old(mem).wf(),
        old(mem).pmm.ready(),
        spaces_known(old(tasks)@, old(mem)@),
    ensures
        final(tasks).wf(),
        final(regions).wf(),
        final(mem).wf(),
        final(mem).pmm.ready(),
        final(mem).pmm.offset() == old(mem).pmm.offset(),
        final(mem).ram == old(mem).ram,
        final(mem).nx == old(mem).nx,
        (final(tasks)@, final(regions)@, final(mem)@.frames) == scheduled(
            old(tasks)@,
            old(regions)@,
            old(mem)@,
            now,
        ),
        r == switch_from(old(tasks)@, final(tasks)@, old(mem).cr3),
        final(mem).cr3 == loaded_after(r, old(mem).cr3),
        r is Some ==> final(tasks)@.running() is Some,
{
    schedule(tasks, regions, mem, now)
}

// ---- What a task keeps ----

/// Where the running task's heap ends.
pub fn heap_end(tasks: &TaskTable) -> (r: u64)
    requires
        tasks.wf(),
    ensures
        r == match tasks@.running() {
            Some(t) => t.heap_end,
            None => USER_HEAP_BASE,
        },
{
    match &tasks.slots[tasks.current] {
        Some(t) => t.heap_end,
        None => USER_HEAP_BASE,
    }
}

pub fn set_heap_end(tasks: &mut TaskTable, new_end: u64)
    requires
        old(tasks).wf(),
    ensures
        final(tasks).wf(),
        final(tasks)@ == match old(tasks)@.running() {
            Some(t) => old(tasks)@.with(Task { heap_end: new_end, ..t }),
            None => old(tasks)@,
        },
{
    let ghost before = tasks@;
    let current: usize = tasks.current;
    if let Some(task) = &mut tasks.slots[current] {
        task.heap_end = new_end;
    }
    proof {
        if let Some(t) = before.running() {
            assert(tasks@.slots =~= before.with(Task { heap_end: new_end, ..t }).slots);
        } else {
            assert(tasks@.slots =~= before.slots);
        }
    }
}

/// The running task's number.
pub fn current_id(tasks: &TaskTable) -> (r: u64)
    requires
        tasks.wf(),
    ensures
        r == match tasks@.running() {
            Some(t) => t.id,
            None => 0,
        },
{
    match &tasks.slots[tasks.current] {
        Some(t) => t.id,
        None => 0,
    }
}

/// The running task's address space.
pub fn current_cr3(tasks: &TaskTable) -> (r: u64)
    requires
        tasks.wf(),
    ensures
        r == match tasks@.running() {
            Some(t) => t.cr3,
            None => 0,
        },
{
    match &tasks.slots[tasks.current] {
        Some(t) => t.cr3,
        None => 0,
    }
}

/// The running task's thread pointer.
pub fn fs_base(tasks: &TaskTable) -> (r: u64)
    requires
        tasks.wf(),
    ensures
        r == match tasks@.running() {
            Some(t) => t.fs_base,
            None => 0,
        },
{
    match &tasks.slots[tasks.current] {
        Some(t) => t.fs_base,
        None => 0,
    }
}

/// Sets the running task's thread pointer. The caller loads it into the
/// processor.
pub fn set_fs_base(tasks: &mut TaskTable, value: u64)
    requires
        old(tasks).wf(),
    ensures
        final(tasks).wf(),
        final(tasks)@ == match old(tasks)@.running() {
            Some(t) => old(tasks)@.with(Task { fs_base: value, ..t }),
            None => old(tasks)@,
        },
{
    let ghost before = tasks@;
    let current: usize = tasks.current;
    if let Some(task) = &mut tasks.slots[current] {
        task.fs_base = value;
    }
    proof {
        if let Some(t) = before.running() {
            assert(tasks@.slots =~= before.with(Task { fs_base: value, ..t }).slots);
        } else {
            assert(tasks@.slots =~= before.slots);
        }
    }
}

/// The path of the program that the running task runs.
pub fn current_exe_path(tasks: &TaskTable) -> (r: Vec<u8>)
    requires
        tasks.wf(),
    ensures
        r@ == match tasks@.running() {
            Some(t) => t.exe_path@,
            None => Seq::empty(),
        },
{
    match &tasks.slots[tasks.current] {
        Some(t) => slice_to_vec(t.exe_path.as_slice()),
        None => Vec::new(),
    }
}

/// The tasks of the first `n` slots, each with its number, name, state, how
/// often it has run, and whether it is the one that runs.
pub open spec fn listing(tasks: Tasks, n: int) -> Seq<(u64, &'static str, TaskState, u64, bool)>
    decreases n,
{
    if n <= 0 {
        Seq::empty()
    } else {
        match tasks.slots[n - 1] {
            Some(t) => listing(tasks, n - 1).push((t.id, t.name, t.state, t.ticks_run, n - 1 == tasks.current)),
            None => listing(tasks, n - 1),
        }
    }
}

pub fn list(tasks: &TaskTable) -> (r: Vec<(u64, &'static str, TaskState, u64, bool)>)
    requires
        tasks.wf(),
    ensures
        r@ == listing(tasks@, MAX_TASKS as int),
{
    let mut out: Vec<(u64, &'static str, TaskState, u64, bool)> = Vec::new();
    for i in 0..MAX_TASKS
        invariant
            tasks.wf(),
            out@ == listing(tasks@, i as int),
    {
        if let Some(t) = &tasks.slots[i] {
            out.push((t.id, t.name, t.state, t.ticks_run, i == tasks.current));
        }
    }
    out
}

// ---- Signals ----

/// Sets the running task's handler for a signal. Numbers that are no signal
/// are ignored.
pub fn set_sigaction(tasks: &mut TaskTable, sig: u64, handler: u64, flags: u64, restorer: u64)
    requires
        old(tasks).wf(),
    ensures
        final(tasks).wf(),
        match old(tasks)@.running() {
            Some(t) if 0 < sig < NSIG => {
                let t1 = final(tasks)@.running()->0;
                &&& final(tasks)@ == old(tasks)@.with(Task { sig_handlers: t1.sig_handlers, ..t })
                &&& t1.sig_handlers@ == t.sig_handlers@.update(sig as int, (handler, flags, restorer))
            },
            _ => final(tasks)@ == old(tasks)@,
        },
{
    if sig == 0 || sig >= NSIG as u64 {
        return;
    }
    let ghost before = tasks@;
    let current: usize = tasks.current;
    if let Some(task) = &mut tasks.slots[current] {
        task.sig_handlers[sig as usize] = (handler, flags, restorer);
    }
    proof {
        if let Some(t) = before.running() {
            let t1 = tasks@.running()->0;
            assert(tasks@.slots =~= before.with(Task { sig_handlers: t1.sig_handlers, ..t }).slots);
        } else {
            assert(tasks@.slots =~= before.slots);
        }
    }
}

/// The running task's handler for a signal, its flags and its restorer.
pub fn sigaction(tasks: &TaskTable, sig: u64) -> (r: (u64, u64, u64))
    requires
        tasks.wf(),
    ensures
        r == match tasks@.running() {
            Some(t) if 0 < sig < NSIG => t.sig_handlers@[sig as int],
            _ => (0u64, 0u64, 0u64),
        },
{
    if sig == 0 || sig >= NSIG as u64 {
        return (0, 0, 0);
    }
    match &tasks.slots[tasks.current] {
        Some(t) => t.sig_handlers[sig as usize],
        None => (0, 0, 0),
    }
}

pub fn is_delivering_signal(tasks: &TaskTable, sig: u8) -> (r: bool)
    requires
        tasks.wf(),
    ensures
        r == (tasks@.running() matches Some(t) && t.sig_delivering == Some(sig)),
{
    match &tasks.slots[tasks.current] {
        Some(t) => match t.sig_delivering {
            Some(s) => s == sig,
            None => false,
        },
        None => false,
    }
}

/// Notes that the running task handles a signal, and keeps the registers that
/// it goes on with afterwards. Refused while it handles another.
pub fn begin_signal_delivery(tasks: &mut TaskTable, sig: u8, ctx: SavedContext) -> (r: bool)
    requires
        old(tasks).wf(),
    ensures
        final(tasks).wf(),
        r == (old(tasks)@.running() matches Some(t) && t.sig_delivering is None),
        final(tasks)@ == match old(tasks)@.running() {
            Some(t) if r => old(tasks)@.with(
                Task { sig_delivering: Some(sig), sig_saved_ctx: Some(ctx), ..t },
            ),
            _ => old(tasks)@,
        },
{
    let ghost before = tasks@;
    let current: usize = tasks.current;
    let mut begun: bool = false;
    if let Some(task) = &mut tasks.slots[current] {
        if task.sig_delivering.is_none() {
            task.sig_delivering = Some(sig);
            task.sig_saved_ctx = Some(ctx);
            begun = true;
        }
    }
    proof {
        match before.running() {
            Some(t) if begun => {
                assert(tasks@.slots =~= before.with(
                    Task { sig_delivering: Some(sig), sig_saved_ctx: Some(ctx), ..t },
                ).slots);
            },
            _ => {
                assert(tasks@.slots =~= before.slots);
            },
        }
    }
    begun
}

/// Notes that the running task has handled its signal, and gives back the
/// registers that it goes on with.
pub fn end_signal_delivery(tasks: &mut TaskTable) -> (r: Option<SavedContext>)
    requires
        old(tasks).wf(),
    ensures
        final(tasks).wf(),
        match old(tasks)@.running() {
            Some(t) => r == t.sig_saved_ctx && final(tasks)@ == old(tasks)@.with(
                Task { sig_delivering: None, sig_saved_ctx: None, ..t },
            ),
            None => r is None && final(tasks)@ == old(tasks)@,
        },
{
    let ghost before = tasks@;
    let current: usize = tasks.current;
    let mut saved: Option<SavedContext> = None;
    if let Some(task) = &mut tasks.slots[current] {
        task.sig_delivering = None;
        saved = task.sig_saved_ctx;
        task.sig_saved_ctx = None;
    }
    proof {
        if let Some(t) = before.running() {
            assert(tasks@.slots =~= before.with(Task { sig_delivering: None, sig_saved_ctx: None, ..t }).slots);
        } else {
            assert(tasks@.slots =~= before.slots);
        }
    }
    saved
}

// ---- Open files ----

pub const EBADF: i64 = -9;

pub const EISDIR: i64 = -21;

pub const EINVAL: i64 = -22;

pub ghost enum ExtraV {
    Dir(Seq<u8>),
    Writable(Seq<u8>, Seq<u8>),
}

pub ghost struct OpenV {
    pub data: FileBacking,
    pub pos: int,
    pub ino: u64,
    pub extra: Option<ExtraV>,
}

impl OpenFile {
    pub open spec fn view(self) -> OpenV {
        OpenV {
            data: self.data,
            pos: self.pos as int,
            ino: self.ino,
            extra: match self.extra {
                None => None,
                Some(OpenExtra::Dir(path)) => Some(ExtraV::Dir(path@)),
                Some(OpenExtra::Writable(path, buf)) => Some(ExtraV::Writable(path@, buf@)),
            },
        }
    }
}

pub open spec fn entries_view(entries: Seq<Option<OpenFile>>) -> Seq<Option<OpenV>> {
    Seq::new(
        entries.len(),
        |i: int|
            match entries[i] {
                Some(f) => Some(f@),
                None => None,
            },
    )
}

impl Tasks {
    /// The files that the running task has open.
    pub open spec fn descriptors(self) -> Seq<Option<OpenV>> {
        entries_view(self.files[(self.running()->0).files as int].entries@)
    }

    pub open spec fn descriptor(self, fd: int) -> Option<OpenV> {
        if 0 <= fd < MAX_OPEN_FILES {
            self.descriptors()[fd]
        } else {
            None
        }
    }

    /// `self` is `before`, but for the files that the running task has open,
    /// which are `files` now.
    pub open spec fn only_files(self, before: Tasks, files: Seq<Option<OpenV>>) -> bool {
        let k = (before.running()->0).files as int;
        &&& self == Tasks { files: self.files, ..before }
        &&& self.files == before.files.update(k, self.files[k])
        &&& self.descriptors() == files
    }
}

/// The contents of a file after `bytes` have been written from `start` on;
/// a gap is filled with zeros.
pub open spec fn overwritten(buf: Seq<u8>, start: int, bytes: Seq<u8>) -> Seq<u8> {
    let end = start + bytes.len();
    Seq::new(
        (if buf.len() < end {
            end
        } else {
            buf.len() as int
        }) as nat,
        |i: int|
            if start <= i < end {
                bytes[i - start]
            } else if i < buf.len() {
                buf[i]
            } else {
                0u8
            },
    )
}

/// The contents of a file cut or filled up with zeros to `size` bytes.
pub open spec fn resized(buf: Seq<u8>, size: nat) -> Seq<u8> {
    Seq::new(
        size,
        |i: int|
            if i < buf.len() {
                buf[i]
            } else {
                0u8
            },
    )
}

/// Where a read or a write starts: at the given offset, or where the last one
/// left off.
pub open spec fn start_of(f: OpenV, offset: Option<usize>) -> int {
    match offset {
        Some(o) => o as int,
        None => f.pos,
    }
}

fn resize(buf: &mut Vec<u8>, size: usize)
    ensures
        final(buf)@ == resized(old(buf)@, size as nat),
{
    let ghost before = buf@;
    if buf.len() > size {
        buf.truncate(size);
        assert(buf@ =~= resized(before, size as nat));
    } else {
        while buf.len() < size
            invariant
                before.len() <= buf@.len() <= size,
                buf@ == resized(before, buf@.len()),
            decreases size - buf@.len(),
        {
            buf.push(0);
            assert(buf@ =~= resized(before, buf@.len()));
        }
        assert(buf@ =~= resized(before, size as nat));
    }
}

impl OpenFile {
    /// What a write to the file is answered, and what it leaves of the file.
    pub open spec fn write_result(f: OpenV, bytes: Seq<u8>, offset: Option<usize>) -> (OpenV, Result<int, i64>) {
        let start = start_of(f, offset);
        match f.extra {
            Some(ExtraV::Writable(path, buf)) => (
                OpenV {
                    extra: Some(ExtraV::Writable(path, overwritten(buf, start, bytes))),
                    pos: if offset is None {
                        start + bytes.len()
                    } else {
                        f.pos
                    },
                    ..f
                },
                Ok(bytes.len() as int),
            ),
            _ => (f, Err(EBADF)),
        }
    }

    fn write(&mut self, bytes: &[u8], offset: Option<usize>) -> (r: Result<usize, i64>)
        requires
            start_of(old(self)@, offset) + bytes@.len() <= usize::MAX,
        ensures
            ({
                let (f, n) = OpenFile::write_result(old(self)@, bytes@, offset);
                &&& final(self)@ == f
                &&& match n {
                    Ok(k) => r matches Ok(x) && x == k,
                    Err(e) => r == Err::<usize, i64>(e),
                }
            }),
    {
        let start: usize = match offset {
            Some(o) => o,
            None => self.pos,
        };
        match &mut self.extra {
            Some(OpenExtra::Writable(_, buf)) => {
                put_bytes(buf, start, bytes);
            },
            _ => {
                return Err(EBADF);
            },
        }
        if offset.is_none() {
            self.pos = start + bytes.len();
        }
        Ok(bytes.len())
    }

    /// What a read of the file is answered, what it leaves of the file and of
    /// the buffer.
    pub open spec fn read_result(f: OpenV, d: Image, layout: Option<Layout>, out: Seq<u8>, offset: Option<usize>) -> (
        OpenV,
        Seq<u8>,
        Result<int, i64>,
    ) {
        let start = start_of(f, offset);
        match f.extra {
            Some(ExtraV::Dir(_)) => (f, out, Err(EISDIR)),
            Some(ExtraV::Writable(_, buf)) => {
                let n = readable(buf.len() as int, start, out.len() as int);
                (
                    OpenV {
                        pos: if offset is None {
                            start + n
                        } else {
                            f.pos
                        },
                        ..f
                    },
                    copied(buf, start, out),
                    Ok(n),
                )
            },
            None => {
                let (data, bytes, n) = f.data.read(d, layout, start, out);
                match n {
                    Err(e) => (f, bytes, Err(e)),
                    Ok(k) => (
                        OpenV {
                            data,
                            pos: if offset is None {
                                start + k
                            } else {
                                f.pos
                            },
                            ..f
                        },
                        bytes,
                        Ok(k),
                    ),
                }
            },
        }
    }

    fn read(&mut self, fs: &mut Fs, buffer: &mut Vec<u8>, offset: Option<usize>) -> (r: Result<usize, i64>)
        requires
            old(fs).wf(),
        ensures
            final(fs).only_read(*old(fs)),
            ({
                let (f, out, n) = OpenFile::read_result(
                    old(self)@,
                    old(fs).disk@,
                    old(fs).layout,
                    old(buffer)@,
                    offset,
                );
                &&& final(self)@ == f
                &&& final(buffer)@ == out
                &&& match n {
                    Ok(k) => r matches Ok(x) && x == k,
                    Err(e) => r == Err::<usize, i64>(e),
                }
            }),
    {
        let start: usize = match offset {
            Some(o) => o,
            None => self.pos,
        };
        let n: usize = match &self.extra {
            Some(OpenExtra::Dir(_)) => {
                return Err(EISDIR);
            },
            Some(OpenExtra::Writable(_, buf)) => {
                let left: usize = if start < buf.len() {
                    buf.len() - start
                } else {
                    0
                };
                let n: usize = if left <= buffer.len() {
                    left
                } else {
                    buffer.len()
                };
                copy_from(buf.as_slice(), start as u64, buffer, n);
                n
            },
            None => {
                let mut backing = self.data;
                match backing.read_at(fs, start as u64, buffer) {
                    Err(e) => {
                        return Err(e);
                    },
                    Ok(n) => {
                        proof {
                            assert(self.data.size() <= usize::MAX) by {
                                if let FileBacking::Static(d) = self.data {
                                    assert(d.len() == d@.len());
                                }
                            }
                        }
                        self.data = backing;
                        n
                    },
                }
            },
        };
        if offset.is_none() {
            self.pos = start + n;
        }
        Ok(n)
    }

    fn truncate(&mut self, size: usize) -> (r: Result<(), i64>)
        ensures
            match old(self)@.extra {
                Some(ExtraV::Writable(path, buf)) => r is Ok && final(self)@ == (OpenV {
                    extra: Some(ExtraV::Writable(path, resized(buf, size as nat))),
                    ..old(self)@
                }),
                _ => r == Err::<(), i64>(EINVAL) && final(self)@ == old(self)@,
            },
    {
        match &mut self.extra {
            Some(OpenExtra::Writable(_, buf)) => {
                resize(buf, size);
            },
            _ => {
                return Err(EINVAL);
            },
        }
        Ok(())
    }
}

fn put_bytes(buf: &mut Vec<u8>, start: usize, bytes: &[u8])
    requires
        start + bytes@.len() <= usize::MAX,
    ensures
        final(buf)@ == overwritten(old(buf)@, start as int, bytes@),
{
    let ghost before = buf@;
    let n: usize = bytes.len();
    let end: usize = start + n;
    if buf.len() < end {
        resize(buf, end);
    }
    let ghost grown = buf@;
    for i in 0..n
        invariant
            n == bytes@.len(),
            start + n <= grown.len(),
            start + n <= usize::MAX,
            buf@.len() == grown.len(),
            forall|k: int|
                0 <= k < grown.len() ==> #[trigger] buf@[k] == if start <= k < start + i {
                    bytes@[k - start]
                } else {
                    grown[k]
                },
    {
        buf[start + i] = bytes[i];
    }
    assert(buf@ =~= overwritten(before, start as int, bytes@));
}

impl TaskTable {
    pub(crate) fn table_of_running(&self) -> (r: usize)
        requires
            self.wf(),
            self@.running() is Some,
        ensures
            r == (self@.running()->0).files,
            r < MAX_TASKS,
    {
        match &self.slots[self.current] {
            Some(t) => t.files,
            None => 0,
        }
    }
}

/// Reads from an open file into `buffer`, at `offset` or where the last read
/// left off.
pub fn read_open_file(
    tasks: &mut TaskTable,
    fs: &mut Fs,
    fd: usize,
    buffer: &mut Vec<u8>,
    offset: Option<usize>,
) -> (r: Result<usize, i64>)
    requires
        old(tasks).wf(),
        old(tasks)@.running() is Some,
        old(fs).wf(),
    ensures
        final(tasks).wf(),
        final(fs).only_read(*old(fs)),
        match old(tasks)@.descriptor(fd as int) {
            None => r == Err::<usize, i64>(EBADF) && final(tasks)@ == old(tasks)@ && final(buffer)@ == old(buffer)@,
            Some(f) => {
                let (f1, out, n) = OpenFile::read_result(
                    f,
                    old(fs).disk@,
                    old(fs).layout,
                    old(buffer)@,
                    offset,
                );
                &&& final(tasks)@.only_files(
                    old(tasks)@,
                    old(tasks)@.descriptors().update(fd as int, Some(f1)),
                )
                &&& final(buffer)@ == out
                &&& match n {
                    Ok(k) => r matches Ok(x) && x == k,
                    Err(e) => r == Err::<usize, i64>(e),
                }
            },
        },
{
    if fd >= MAX_OPEN_FILES {
        return Err(EBADF);
    }
    let k: usize = tasks.table_of_running();
    if tasks.files[k].entries[fd].is_none() {
        return Err(EBADF);
    }
    let ghost before = tasks@;
    let r = match &mut tasks.files[k].entries[fd] {
        Some(file) => file.read(fs, buffer, offset),
        None => Err(EBADF),
    };
    proof {
        lemma_one_file(before, tasks@, k as int, fd as int);
    }
    r
}

/// Changing one entry of the running task's table changes that descriptor and
/// nothing else.
pub proof fn lemma_one_file(before: Tasks, after: Tasks, k: int, fd: int)
    requires
        before.wf(),
        before.running() is Some,
        k == (before.running()->0).files,
        0 <= fd < MAX_OPEN_FILES,
        after == (Tasks { files: after.files, ..before }),
        after.files.len() == before.files.len(),
        after.files[k].entries@.len() == MAX_OPEN_FILES,
        forall|j: int| 0 <= j < MAX_TASKS && j != k ==> #[trigger] after.files[j] == before.files[j],
        forall|j: int|
            0 <= j < MAX_OPEN_FILES && j != fd ==> #[trigger] after.files[k].entries@[j]
                == before.files[k].entries@[j],
    ensures
        after.wf(),
        after.files =~= before.files.update(k, after.files[k]),
        after.descriptors() =~= before.descriptors().update(fd, after.descriptors()[fd]),
{
    assert forall|j: int| 0 <= j < MAX_OPEN_FILES && j != fd implies #[trigger] after.descriptors()[j]
        == before.descriptors()[j] by {
        assert(after.files[k].entries@[j] == before.files[k].entries@[j]);
    }
}

/// Writes to an open file, at `offset` or where the last write left off.
pub fn write_open_file(tasks: &mut TaskTable, fd: usize, bytes: &[u8], offset: Option<usize>) -> (r: Result<
    usize,
    i64,
>)
    requires
        old(tasks).wf(),
        old(tasks)@.running() is Some,
        old(tasks)@.descriptor(fd as int) matches Some(f) ==> start_of(f, offset) + bytes@.len() <= usize::MAX,
    ensures
        final(tasks).wf(),
        match old(tasks)@.descriptor(fd as int) {
            None => r == Err::<usize, i64>(EBADF) && final(tasks)@ == old(tasks)@,
            Some(f) => {
                let (f1, n) = OpenFile::write_result(f, bytes@, offset);
                &&& final(tasks)@.only_files(
                    old(tasks)@,
                    old(tasks)@.descriptors().update(fd as int, Some(f1)),
                )
                &&& match n {
                    Ok(k) => r matches Ok(x) && x == k,
                    Err(e) => r == Err::<usize, i64>(e),
                }
            },
        },
{
    if fd >= MAX_OPEN_FILES {
        return Err(EBADF);
    }
    let k: usize = tasks.table_of_running();
    if tasks.files[k].entries[fd].is_none() {
        return Err(EBADF);
    }
    let ghost before = tasks@;
    let r = match &mut tasks.files[k].entries[fd] {
        Some(file) => file.write(bytes, offset),
        None => Err(EBADF),
    };
    proof {
        lemma_one_file(before, tasks@, k as int, fd as int);
    }
    r
}

/// Cuts a file that is open for writing, or fills it up with zeros, to `size`
/// bytes.
pub fn truncate_open_file(tasks: &mut TaskTable, fd: usize, size: u64) -> (r: Result<(), i64>)
    requires
        old(tasks).wf(),
        old(tasks)@.running() is Some,
        size <= usize::MAX,
    ensures
        final(tasks).wf(),
        match old(tasks)@.descriptor(fd as int) {
            None => r == Err::<(), i64>(EBADF) && final(tasks)@ == old(tasks)@,
            Some(f) => match f.extra {
                Some(ExtraV::Writable(path, buf)) => {
                    &&& r is Ok
                    &&& final(tasks)@.only_files(
                        old(tasks)@,
                        old(tasks)@.descriptors().update(
                            fd as int,
                            Some(OpenV { extra: Some(ExtraV::Writable(path, resized(buf, size as nat))), ..f }),
                        ),
                    )
                },
                _ => r == Err::<(), i64>(EINVAL) && final(tasks)@.only_files(
                    old(tasks)@,
                    old(tasks)@.descriptors(),
                ),
            },
        },
{
    if fd >= MAX_OPEN_FILES {
        return Err(EBADF);
    }
    let k: usize = tasks.table_of_running();
    if tasks.files[k].entries[fd].is_none() {
        return Err(EBADF);
    }
    let ghost before = tasks@;
    let r = match &mut tasks.files[k].entries[fd] {
        Some(file) => file.truncate(size as usize),
        None => Err(EBADF),
    };
    proof {
        lemma_one_file(before, tasks@, k as int, fd as int);
        assert(before.descriptors().update(fd as int, before.descriptors()[fd as int]) =~= before.descriptors());
    }
    r
}

/// The length of an open file, its inode number and whether it is a
/// directory.
pub fn open_file_len(tasks: &TaskTable, fd: usize) -> (r: Option<(u64, u64, bool)>)
    requires
        tasks.wf(),
        tasks@.running() is Some,
    ensures
        match tasks@.descriptor(fd as int) {
            None => r is None,
            Some(f) => r matches Some((len, ino, dir)) && ino == f.ino && dir == (f.extra matches Some(
                ExtraV::Dir(_),
            )) && len == match f.extra {
                Some(ExtraV::Dir(_)) => 0,
                Some(ExtraV::Writable(_, buf)) => buf.len() as int,
                None => f.data.size(),
            },
        },
{
    if fd >= MAX_OPEN_FILES {
        return None;
    }
    let k: usize = tasks.table_of_running();
    match &tasks.files[k].entries[fd] {
        None => None,
        Some(file) => {
            let (size, dir): (u64, bool) = match &file.extra {
                Some(OpenExtra::Dir(_)) => (0, true),
                Some(OpenExtra::Writable(_, buf)) => (buf.len() as u64, false),
                None => (file.data.len() as u64, false),
            };
            Some((size, file.ino, dir))
        },
    }
}

/// The path of an open directory.
pub fn open_file_dir_path(tasks: &TaskTable, fd: usize) -> (r: Option<Vec<u8>>)
    requires
        tasks.wf(),
        tasks@.running() is Some,
    ensures
        match tasks@.descriptor(fd as int) {
            Some(OpenV { extra: Some(ExtraV::Dir(path)), .. }) => r matches Some(p) && p@ == path,
            _ => r is None,
        },
{
    if fd >= MAX_OPEN_FILES {
        return None;
    }
    let k: usize = tasks.table_of_running();
    match &tasks.files[k].entries[fd] {
        Some(file) => match &file.extra {
            Some(OpenExtra::Dir(path)) => Some(slice_to_vec(path.as_slice())),
            _ => None,
        },
        None => None,
    }
}

/// Reading keeps the length of the buffer.
pub proof fn lemma_backing_len(b: FileBacking, d: Image, layout: Option<Layout>, offset: int, out: Seq<u8>)
    requires
        image_ok(d),
        0 <= offset,
    ensures
        b.read(d, layout, offset, out).1.len() == out.len(),
{
    if let FileBacking::Disk(f) = b {
        lemma_read_len(d, layout, f, offset, out);
    }
}

/// The lowest descriptor from `from` on that is not in use.
pub open spec fn free_descriptor(d: Seq<Option<OpenV>>, from: int) -> Option<int>
    decreases d.len() - from,
{
    if from >= d.len() {
        None
    } else if d[from] is None {
        Some(from)
    } else {
        free_descriptor(d, from + 1)
    }
}

/// Gives the running task's lowest free descriptor from `from` on to a file.
pub(crate) fn install_file(tasks: &mut TaskTable, file: OpenFile, from: usize) -> (r: Option<usize>)
    requires
        old(tasks).wf(),
        old(tasks)@.running() is Some,
        from <= MAX_OPEN_FILES,
    ensures
        final(tasks).wf(),
        match free_descriptor(old(tasks)@.descriptors(), from as int) {
            Some(i) => r matches Some(x) && x == i && x < MAX_OPEN_FILES && final(tasks)@.only_files(
                old(tasks)@,
                old(tasks)@.descriptors().update(i, Some(file@)),
            ),
            None => r is None && final(tasks)@ == old(tasks)@,
        },
{
    let k: usize = tasks.table_of_running();
    let ghost before = tasks@;
    let ghost d = before.descriptors();
    let mut i: usize = from;
    while i < MAX_OPEN_FILES && tasks.files[k].entries[i].is_some()
        invariant
            tasks@ == before,
            before.wf(),
            before.running() is Some,
            k == (before.running()->0).files,
            d == before.descriptors(),
            i <= MAX_OPEN_FILES,
            free_descriptor(d, from as int) == free_descriptor(d, i as int),
        decreases MAX_OPEN_FILES - i,
    {
        assert(d[i as int] is Some);
        i += 1;
    }
    if i == MAX_OPEN_FILES {
        return None;
    }
    assert(d[i as int] is None);
    tasks.files[k].entries[i] = Some(file);
    proof {
        lemma_one_file(before, tasks@, k as int, i as int);
        assert(tasks@.files[k as int].entries@[i as int] == Some(file));
    }
    Some(i)
}

/// Takes an open file away from the running task.
pub(crate) fn take_file(tasks: &mut TaskTable, fd: usize) -> (r: Option<OpenFile>)
    requires
        old(tasks).wf(),
        old(tasks)@.running() is Some,
    ensures
        final(tasks).wf(),
        match old(tasks)@.descriptor(fd as int) {
            Some(f) => r matches Some(x) && x@ == f && final(tasks)@.only_files(
                old(tasks)@,
                old(tasks)@.descriptors().update(fd as int, None),
            ),
            None => r is None && final(tasks)@ == old(tasks)@,
        },
{
    if fd >= MAX_OPEN_FILES {
        return None;
    }
    let k: usize = tasks.table_of_running();
    if tasks.files[k].entries[fd].is_none() {
        return None;
    }
    let ghost before = tasks@;
    let taken = tasks.files[k].entries[fd].take();
    proof {
        lemma_one_file(before, tasks@, k as int, fd as int);
    }
    taken
}

/// Sets where the next read or write of an open file starts.
pub(crate) fn set_position(tasks: &mut TaskTable, fd: usize, pos: usize)
    requires
        old(tasks).wf(),
        old(tasks)@.running() is Some,
        old(tasks)@.descriptor(fd as int) is Some,
    ensures
        final(tasks).wf(),
        final(tasks)@.only_files(
            old(tasks)@,
            old(tasks)@.descriptors().update(
                fd as int,
                Some(OpenV { pos: pos as int, ..old(tasks)@.descriptor(fd as int)->0 }),
            ),
        ),
{
    let k: usize = tasks.table_of_running();
    let ghost before = tasks@;
    if let Some(file) = &mut tasks.files[k].entries[fd] {
        file.pos = pos;
    }
    proof {
        lemma_one_file(before, tasks@, k as int, fd as int);
    }
}

/// Two changes to the same descriptor are one.
pub proof fn lemma_files_twice(a: Tasks, b: Tasks, c: Tasks, fd: int, f: Option<OpenV>, g: Option<OpenV>)
    requires
        a.wf(),
        a.running() is Some,
        0 <= fd < MAX_OPEN_FILES,
        b.only_files(a, a.descriptors().update(fd, f)),
        c.only_files(b, b.descriptors().update(fd, g)),
    ensures
        c.only_files(a, a.descriptors().update(fd, g)),
        b.running() == a.running(),
        b.descriptor(fd) == f,
{
    let k = (a.running()->0).files as int;
    assert(c.files =~= a.files.update(k, c.files[k]));
    assert(c.descriptors() =~= a.descriptors().update(fd, g));
}

/// A read fills no more of the buffer than it has.
pub proof fn lemma_read_result_len(f: OpenV, d: Image, layout: Option<Layout>, out: Seq<u8>, offset: Option<usize>)
    requires
        image_ok(d),
        0 <= f.pos,
    ensures
        ({
            let (g, bytes, n) = OpenFile::read_result(f, d, layout, out, offset);
            &&& bytes.len() == out.len()
            &&& n matches Ok(k) ==> 0 <= k <= out.len()
            &&& 0 <= g.pos
        }),
{
    let start = start_of(f, offset);
    if f.extra is None {
        lemma_backing_len(f.data, d, layout, start, out);
        if let FileBacking::Disk(file) = f.data {
            lemma_read_len(d, layout, file, start, out);
        }
    }
}


/// Works on the table of open files of the running task, and leaves all else
/// as it is.
pub fn with_current_open_files<R, F: FnOnce(&mut Vec<Option<OpenFile>>) -> R>(tasks: &mut TaskTable, f: F) -> (r: R)
    requires
        old(tasks).wf(),
        old(tasks)@.running() is Some,
        forall|e: &mut Vec<Option<OpenFile>>|
            *e == old(tasks)@.files[(old(tasks)@.running()->0).files as int].entries ==> #[trigger] f.requires((e,)),
        forall|e: &mut Vec<Option<OpenFile>>, x: R|
            #[trigger] f.ensures((e,), x) ==> (*final(e))@.len() == MAX_OPEN_FILES,
    ensures
        final(tasks).wf(),
        ({
            let k = (old(tasks)@.running()->0).files as int;
            &&& final(tasks)@ == (Tasks {
                files: old(tasks)@.files.update(k, final(tasks)@.files[k]),
                ..old(tasks)@
            })
            &&& exists|e: &mut Vec<Option<OpenFile>>|
                *e == old(tasks)@.files[k].entries && *final(e) == final(tasks)@.files[k].entries && #[trigger] f.ensures(
                    (e,),
                    r,
                )
        }),
{
    let ghost before = tasks@;
    let n: usize = match &tasks.slots[tasks.current] {
        Some(t) => t.files,
        None => 0,
    };
    let r = f(&mut tasks.files[n].entries);
    assert(tasks@.files =~= before.files.update(n as int, tasks@.files[n as int]));
    r
}
} // verus!
