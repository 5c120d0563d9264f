//! The Linux system calls on memory, tasks, waiting and signals.
use crate::kernel::Kernel;
use crate::le::{bytes32, bytes64, get32, get64, le32, le64, put32, put64};
use crate::linux_abi::{
    answer, deadline_of, encoded, failure, is_clock, store, storing, timespec_deadline, zeros, push_zeros, Next,
    NextV, Reply, ReplyV, CLOCK_BOOTTIME, CLOCK_MONOTONIC, CLOCK_REALTIME, EAGAIN, EBADF, EFAULT, EINVAL, ENOMEM,
    ENOSYS, ETIMEDOUT,
};
use crate::paging::{current_cr3, Mem};
use crate::task::{
    admitted, blocked, current_exe_path, end_signal_delivery, ended, first_frame, free_slot, fs_base, futex_wait,
    futex_wake, heap_end, set_fs_base, set_sigaction, sigaction, sleep_until, spawn_clone_raw, spawned, task_exit,
    waiters, woken, ExtraV, FileBacking, OpenExtra, Task, Tasks, MAX_OPEN_FILES, MAX_TASKS, NSIG, STACK_SIZE,
    WaitState,
};
use crate::text::{hex, push_hex, push_str};
use crate::vm::{fault, faulted, mapping, protect, protecting, unmap, unmapping, Table};
use crate::vm_laws::{
    law_fault, law_mapping_keeps_space, law_protecting_keeps_space, law_unmapping_keeps_space, lemma_pages_known,
};
use crate::volume::{min, Image, Layout};
use vstd::prelude::*;
use vstd::slice::{slice_subrange, slice_to_vec};
use vstd::string::*;

verus! {

// ---- Memory ----

pub open spec fn result_reply(r: Result<(), i64>) -> ReplyV {
    match r {
        Ok(_) => answer(0),
        Err(e) => failure(e),
    }
}

/// `after` is `before`, but for the regions and the memory.
pub open spec fn only_memory(before: Kernel, after: Kernel) -> bool {
    after.tasks == before.tasks && after.fs == before.fs && after.same_machine(before)
}

pub open spec fn munmap_done(before: Kernel, after: Kernel, addr: u64, len: u64, r: ReplyV) -> bool {
    let (t, m, x) = unmapping(before.regions@, before.mem@, before.space(), addr, len);
    only_memory(before, after) && after.regions@ == t && after.mem@ == m && r == result_reply(x)
}

pub(crate) fn sys_munmap(k: &mut Kernel, addr: u64, len: u64) -> (r: Reply)
    requires
        old(k).wf(),
    ensures
        final(k).wf(),
        munmap_done(*old(k), *final(k), addr, len, r@),
{
    proof {
        lemma_pages_known(k.mem@, k.space());
        law_unmapping_keeps_space(k.regions@, k.mem@, k.space(), addr, len);
    }
    match unmap(&mut k.regions, &mut k.mem, addr, len) {
        Ok(_) => Reply::plain(0),
        Err(e) => Reply::error(e),
    }
}

pub open spec fn mprotect_done(before: Kernel, after: Kernel, addr: u64, len: u64, prot: u64, r: ReplyV) -> bool {
    let (t, m, x) = protecting(before.regions@, before.mem@, before.space(), before.mem.nx, addr, len, prot);
    only_memory(before, after) && after.regions@ == t && after.mem@ == m && r == result_reply(x)
}

pub(crate) fn sys_mprotect(k: &mut Kernel, addr: u64, len: u64, prot: u64) -> (r: Reply)
    requires
        old(k).wf(),
    ensures
        final(k).wf(),
        mprotect_done(*old(k), *final(k), addr, len, prot, r@),
{
    proof {
        lemma_pages_known(k.mem@, k.space());
        law_protecting_keeps_space(k.regions@, k.mem@, k.space(), k.mem.nx, addr, len, prot);
    }
    match protect(&mut k.regions, &mut k.mem, addr, len, prot) {
        Ok(_) => Reply::plain(0),
        Err(e) => Reply::error(e),
    }
}

pub const MAP_ANONYMOUS: u64 = 0x20;

/// The answer to a request to map memory: its address.
pub open spec fn map_reply(x: Result<i64, i64>) -> ReplyV {
    match x {
        Ok(start) => answer(encoded(start)),
        Err(e) => failure(e),
    }
}

/// The regions and the memory after `n` pages from `start` on have been
/// touched for writing, and whether that brought them all in.
pub open spec fn touched(
    t: Table,
    s: Mem,
    d: Image,
    layout: Option<Layout>,
    cr3: u64,
    nx: bool,
    start: u64,
    n: int,
) -> (Table, Mem, bool)
    decreases n,
{
    if n <= 0 {
        (t, s, true)
    } else {
        let (t1, s1, ok) = touched(t, s, d, layout, cr3, nx, start, n - 1);
        if ok {
            faulted(t1, s1, d, layout, cr3, nx, start.wrapping_add(((n - 1) as u64).wrapping_mul(4096)), 2)
        } else {
            (t1, s1, false)
        }
    }
}

proof fn lemma_touched_fail(
    t: Table,
    s: Mem,
    d: Image,
    layout: Option<Layout>,
    cr3: u64,
    nx: bool,
    start: u64,
    n: int,
    m: int,
)
    requires
        n <= m,
        !touched(t, s, d, layout, cr3, nx, start, n).2,
    ensures
        touched(t, s, d, layout, cr3, nx, start, m) == touched(t, s, d, layout, cr3, nx, start, n),
    decreases m - n,
{
    if n < m && m > 0 {
        lemma_touched_fail(t, s, d, layout, cr3, nx, start, n, m - 1);
    }
}

/// What mapping memory does. A file that is being written is copied to memory
/// of its own; any other is read as its pages are touched.
pub open spec fn mmap_done(
    before: Kernel,
    after: Kernel,
    addr: u64,
    len: u64,
    prot: u64,
    flags: u64,
    fd: u64,
    offset: u64,
    r: ReplyV,
) -> bool {
    let t = before.regions@;
    let m = before.mem@;
    let cr3 = before.space();
    &&& after.tasks == before.tasks
    &&& after.fs.only_read(before.fs)
    &&& after.same_machine(before)
    &&& if flags & MAP_ANONYMOUS != 0 {
        let (t1, m1, x) = mapping(t, m, cr3, addr, len, prot, flags, None, offset);
        after.regions@ == t1 && after.mem@ == m1 && r == map_reply(x)
    } else {
        match before.tasks@.descriptor(fd as int) {
            None => after.regions@ == t && after.mem@ == m && r == failure(EBADF),
            Some(f) => match f.extra {
                Some(ExtraV::Writable(_, buf)) => {
                    let private = (flags & !3u64) | MAP_ANONYMOUS | 2;
                    let (t1, m1, x) = mapping(t, m, cr3, addr, len, prot, private, None, offset);
                    match x {
                        Err(e) => after.regions@ == t1 && after.mem@ == m1 && r == failure(e),
                        Ok(start) => {
                            let pages = (len + 4095) / 4096;
                            let (t2, m2, ok) = touched(
                                t1,
                                m1,
                                before.fs.disk@,
                                before.fs.layout,
                                cr3,
                                before.mem.nx,
                                encoded(start),
                                pages,
                            );
                            let n = min(buf.len() as int, len as int);
                            &&& after.regions@ == t2
                            &&& after.mem@ == m2
                            &&& r == if !ok {
                                failure(ENOMEM)
                            } else if n > 0 {
                                storing(encoded(start), encoded(start), buf.take(n))
                            } else {
                                answer(encoded(start))
                            }
                        },
                    }
                },
                _ => {
                    let (t1, m1, x) = mapping(t, m, cr3, addr, len, prot, flags, Some(f.data), offset);
                    after.regions@ == t1 && after.mem@ == m1 && r == map_reply(x)
                },
            },
        }
    }
}

/// Maps memory and keeps the kernel in order.
pub(crate) fn map_memory(
    k: &mut Kernel,
    addr: u64,
    len: u64,
    prot: u64,
    flags: u64,
    backing: Option<FileBacking>,
    offset: u64,
) -> (r: Result<i64, i64>)
    requires
        old(k).wf(),
    ensures
        final(k).wf(),
        only_memory(*old(k), *final(k)),
        (final(k).regions@, final(k).mem@, r) == mapping(
            old(k).regions@,
            old(k).mem@,
            old(k).space(),
            addr,
            len,
            prot,
            flags,
            backing,
            offset,
        ),
{
    proof {
        lemma_pages_known(k.mem@, k.space());
        law_mapping_keeps_space(k.regions@, k.mem@, k.space(), addr, len, prot, flags, backing, offset);
    }
    crate::vm::map(&mut k.regions, &mut k.mem, addr, len, prot, flags, backing, offset)
}

/// Brings in one page for writing and keeps the kernel in order.
fn touch_page(k: &mut Kernel, addr: u64) -> (r: bool)
    requires
        old(k).wf(),
    ensures
        final(k).wf(),
        final(k).tasks == old(k).tasks,
        final(k).fs.only_read(old(k).fs),
        final(k).same_machine(*old(k)),
        (final(k).regions@, final(k).mem@, r) == faulted(
            old(k).regions@,
            old(k).mem@,
            old(k).fs.disk@,
            old(k).fs.layout,
            old(k).space(),
            old(k).mem.nx,
            addr,
            2,
        ),
{
    proof {
        lemma_pages_known(k.mem@, k.space());
        law_fault(k.regions@, k.mem@, k.fs.disk@, k.fs.layout, k.space(), k.mem.nx, addr, 2);
    }
    fault(&mut k.regions, &mut k.mem, &mut k.fs, addr, 2)
}

fn touch_pages(k: &mut Kernel, start: u64, pages: u64) -> (r: bool)
    requires
        old(k).wf(),
    ensures
        final(k).wf(),
        final(k).tasks == old(k).tasks,
        final(k).fs.only_read(old(k).fs),
        final(k).same_machine(*old(k)),
        (final(k).regions@, final(k).mem@, r) == touched(
            old(k).regions@,
            old(k).mem@,
            old(k).fs.disk@,
            old(k).fs.layout,
            old(k).space(),
            old(k).mem.nx,
            start,
            pages as int,
        ),
{
    let ghost t = k.regions@;
    let ghost s = k.mem@;
    let ghost d = k.fs.disk@;
    let ghost layout = k.fs.layout;
    let ghost cr3 = k.space();
    let ghost nx = k.mem.nx;
    for i in 0..pages
        invariant
            k.wf(),
            k.tasks == old(k).tasks,
            k.fs.only_read(old(k).fs),
            k.same_machine(*old(k)),
            t == old(k).regions@,
            s == old(k).mem@,
            d == old(k).fs.disk@,
            layout == old(k).fs.layout,
            cr3 == old(k).space(),
            nx == old(k).mem.nx,
            touched(t, s, d, layout, cr3, nx, start, i as int) == (k.regions@, k.mem@, true),
    {
        proof {
            if !touched(t, s, d, layout, cr3, nx, start, i + 1).2 {
                lemma_touched_fail(t, s, d, layout, cr3, nx, start, i + 1, pages as int);
            }
        }
        if !touch_page(k, start.wrapping_add(i.wrapping_mul(4096))) {
            return false;
        }
    }
    true
}

/// The contents of a file that is being written.
fn written_contents(k: &Kernel, fd: usize) -> (r: Option<Vec<u8>>)
    requires
        k.wf(),
        fd < MAX_OPEN_FILES,
        k.tasks@.descriptor(fd as int) is Some,
    ensures
        match (k.tasks@.descriptor(fd as int)->0).extra {
            Some(ExtraV::Writable(_, buf)) => r matches Some(v) && v@ == buf,
            _ => r is None,
        },
{
    let t: usize = k.tasks.table_of_running();
    match &k.tasks.files[t].entries[fd] {
        Some(f) => match &f.extra {
            Some(OpenExtra::Writable(_, buf)) => Some(slice_to_vec(buf.as_slice())),
            _ => None,
        },
        None => None,
    }
}

fn backing_of(k: &Kernel, fd: usize) -> (r: Option<FileBacking>)
    requires
        k.wf(),
        fd < MAX_OPEN_FILES,
    ensures
        match k.tasks@.descriptor(fd as int) {
            Some(f) => r == Some(f.data),
            None => r is None,
        },
{
    let t: usize = k.tasks.table_of_running();
    match &k.tasks.files[t].entries[fd] {
        Some(f) => Some(f.data),
        None => None,
    }
}

#[verifier::spinoff_prover]
pub(crate) fn sys_mmap(k: &mut Kernel, addr: u64, len: u64, prot: u64, flags: u64, fd: u64, offset: u64) -> (r: Reply)
    requires
        old(k).wf(),
    ensures
        final(k).wf(),
        mmap_done(*old(k), *final(k), addr, len, prot, flags, fd, offset, r@),
{
    if flags & MAP_ANONYMOUS != 0 {
        return match map_memory(k, addr, len, prot, flags, None, offset) {
            Ok(start) => Reply::plain(crate::linux_abi::encode(start)),
            Err(e) => Reply::error(e),
        };
    }
    if fd >= MAX_OPEN_FILES as u64 {
        return Reply::error(EBADF);
    }
    let backing = match backing_of(k, fd as usize) {
        Some(b) => b,
        None => {
            return Reply::error(EBADF);
        },
    };
    if let Some(buf) = written_contents(k, fd as usize) {
        let private: u64 = (flags & !3u64) | MAP_ANONYMOUS | 2;
        let start: u64 = match map_memory(k, addr, len, prot, private, None, offset) {
            Ok(start) => crate::linux_abi::encode(start),
            Err(e) => {
                return Reply::error(e);
            },
        };
        let pages: u64 = ((len as u128 + 4095) / 4096) as u64;
        if !touch_pages(k, start, pages) {
            return Reply::error(ENOMEM);
        }
        let n: usize = if (buf.len() as u64) <= len {
            buf.len()
        } else {
            len as usize
        };
        if n > 0 {
            assert(buf@.take(n as int) =~= buf@.subrange(0, n as int));
            return store(start, start, slice_to_vec(slice_subrange(buf.as_slice(), 0, n)));
        }
        return Reply::plain(start);
    }
    match map_memory(k, addr, len, prot, flags, Some(backing), offset) {
        Ok(start) => Reply::plain(crate::linux_abi::encode(start)),
        Err(e) => Reply::error(e),
    }
}

// ---- Tasks ----

pub const ARCH_SET_FS: u64 = 0x1002;

pub const ARCH_GET_FS: u64 = 0x1003;

/// The thread pointer can be set and asked for.
pub open spec fn arch_prctl_done(before: Kernel, after: Kernel, code: u64, addr: u64, r: ReplyV) -> bool {
    &&& after.only_tasks(before)
    &&& if code == ARCH_SET_FS {
        &&& after.tasks@ == before.tasks@.with(Task { fs_base: addr, ..before.task() })
        &&& r == (ReplyV { next: NextV::LoadFs(addr), ..answer(0) })
    } else {
        &&& after.tasks@ == before.tasks@
        &&& r == if code == ARCH_GET_FS {
            storing(0, addr, bytes64(before.task().fs_base))
        } else {
            failure(EINVAL)
        }
    }
}

pub(crate) fn sys_arch_prctl(k: &mut Kernel, code: u64, addr: u64) -> (r: Reply)
    requires
        old(k).wf(),
    ensures
        final(k).wf(),
        arch_prctl_done(*old(k), *final(k), code, addr, r@),
{
    if code == ARCH_SET_FS {
        set_fs_base(&mut k.tasks, addr);
        let mut r = Reply::plain(0);
        r.next = Next::LoadFs(addr);
        r
    } else if code == ARCH_GET_FS {
        let mut out: Vec<u8> = Vec::new();
        put64(&mut out, fs_base(&k.tasks));
        assert(out@ =~= bytes64(old(k).task().fs_base));
        store(0, addr, out)
    } else {
        Reply::error(EINVAL)
    }
}

pub const CLONE_FILES: u64 = 0x0000_0400;

pub const CLONE_SETTLS: u64 = 0x0008_0000;

pub const CLONE_PARENT_SETTID: u64 = 0x0010_0000;

pub const CLONE_CHILD_CLEARTID: u64 = 0x0020_0000;

/// What the machine adds to a call: the registers that the program had, the
/// time, where a new task resumes, and where its kernel stack is.
pub struct Machine {
    pub frame: [u64; 16],
    pub now: u64,
    pub resume: u64,
    pub stack: u64,
    pub random: bool,
}

/// A new task that is a copy of the running one: it shares its files, goes on
/// after the call with zero for an answer, and has a stack of its own.
pub open spec fn clone_done(
    before: Kernel,
    after: Kernel,
    flags: u64,
    stack_top: u64,
    parent_tid: u64,
    child_tid: u64,
    tls: u64,
    m: Machine,
    r: ReplyV,
) -> bool {
    let task = before.task();
    let id = before.tasks@.next_id;
    &&& after.only_tasks(before)
    &&& if flags & CLONE_FILES == 0 {
        after.tasks@ == before.tasks@ && r == failure(ENOSYS)
    } else {
        match free_slot(before.tasks@.slots, 0) {
            None => after.tasks@ == before.tasks@ && r == failure(EAGAIN),
            Some(i) => {
                &&& admitted(before.tasks@, after.tasks@, i, Some(task.files))
                &&& spawned(
                    after.tasks@.slots[i]->0,
                    id,
                    "thread",
                    first_frame(m.resume, 0, 0) + m.frame@.update(12, 0).update(15, stack_top),
                    (m.stack + STACK_SIZE) as u64,
                    before.space(),
                    task.heap_end,
                    if flags & CLONE_SETTLS != 0 {
                        tls
                    } else {
                        task.fs_base
                    },
                    if flags & CLONE_CHILD_CLEARTID != 0 {
                        Some(child_tid)
                    } else {
                        None
                    },
                    task.exe_path@,
                )
                &&& r == if flags & CLONE_PARENT_SETTID != 0 && parent_tid != 0 {
                    storing(id, parent_tid, bytes32((id % 0x1_0000_0000) as u32))
                } else {
                    answer(id)
                }
            },
        }
    }
}

fn do_clone(
    k: &mut Kernel,
    flags: u64,
    stack_top: u64,
    parent_tid: u64,
    child_tid: u64,
    tls: u64,
    m: &Machine,
) -> (r: Reply)
    requires
        old(k).wf(),
        m.stack + STACK_SIZE <= u64::MAX,
    ensures
        final(k).wf(),
        clone_done(*old(k), *final(k), flags, stack_top, parent_tid, child_tid, tls, *m, r@),
{
    if flags & CLONE_FILES == 0 {
        return Reply::error(ENOSYS);
    }
    let mut frame = m.frame;
    frame[12] = 0;
    frame[15] = stack_top;
    assert(frame@ =~= m.frame@.update(12, 0).update(15, stack_top));
    let base: u64 = if flags & CLONE_SETTLS != 0 {
        tls
    } else {
        fs_base(&k.tasks)
    };
    let clear: Option<u64> = if flags & CLONE_CHILD_CLEARTID != 0 {
        Some(child_tid)
    } else {
        None
    };
    let cr3: u64 = current_cr3(&k.mem);
    let end: u64 = heap_end(&k.tasks);
    let exe = current_exe_path(&k.tasks);
    proof {
        if let Some(i) = free_slot(k.tasks@.slots, 0) {
            crate::task::lemma_free_slot(k.tasks@.slots, 0);
        }
    }
    match spawn_clone_raw(&mut k.tasks, "thread", m.resume, frame, cr3, end, base, clear, exe, m.stack) {
        None => Reply::error(EAGAIN),
        Some(id) => {
            if flags & CLONE_PARENT_SETTID != 0 && parent_tid != 0 {
                let mut out: Vec<u8> = Vec::new();
                put32(&mut out, (id % 0x1_0000_0000) as u32);
                assert(out@ =~= bytes32((id % 0x1_0000_0000) as u32));
                store(id, parent_tid, out)
            } else {
                Reply::plain(id)
            }
        },
    }
}

pub open spec fn sys_clone_done(
    before: Kernel,
    after: Kernel,
    flags: u64,
    stack_top: u64,
    parent_tid: u64,
    child_tid: u64,
    tls: u64,
    m: Machine,
    r: ReplyV,
) -> bool {
    if stack_top == 0 {
        after == before && r == failure(EINVAL)
    } else {
        clone_done(before, after, flags, stack_top, parent_tid, child_tid, tls, m, r)
    }
}

pub(crate) fn sys_clone(
    k: &mut Kernel,
    flags: u64,
    stack_top: u64,
    parent_tid: u64,
    child_tid: u64,
    tls: u64,
    m: &Machine,
) -> (r: Reply)
    requires
        old(k).wf(),
        m.stack + STACK_SIZE <= u64::MAX,
    ensures
        final(k).wf(),
        sys_clone_done(*old(k), *final(k), flags, stack_top, parent_tid, child_tid, tls, *m, r@),
{
    if stack_top == 0 {
        return Reply::error(EINVAL);
    }
    do_clone(k, flags, stack_top, parent_tid, child_tid, tls, m)
}

/// The newer form of the call, with its arguments in the program's memory.
pub open spec fn clone3_done(before: Kernel, after: Kernel, args: Seq<u8>, size: u64, m: Machine, r: ReplyV) -> bool {
    let stack = le64(args, 40);
    let stack_size = le64(args, 48);
    if size < 64 || args.len() < 64 || stack == 0 || stack_size == 0 {
        after == before && r == failure(EINVAL)
    } else {
        clone_done(
            before,
            after,
            le64(args, 0),
            stack.wrapping_add(stack_size),
            le64(args, 24),
            le64(args, 16),
            le64(args, 56),
            m,
            r,
        )
    }
}

pub(crate) fn sys_clone3(k: &mut Kernel, args: &[u8], size: u64, m: &Machine) -> (r: Reply)
    requires
        old(k).wf(),
        m.stack + STACK_SIZE <= u64::MAX,
    ensures
        final(k).wf(),
        clone3_done(*old(k), *final(k), args@, size, *m, r@),
{
    if size < 64 || args.len() < 64 {
        return Reply::error(EINVAL);
    }
    let stack: u64 = get64(args, 40);
    let stack_size: u64 = get64(args, 48);
    if stack == 0 || stack_size == 0 {
        return Reply::error(EINVAL);
    }
    do_clone(
        k,
        get64(args, 0),
        stack.wrapping_add(stack_size),
        get64(args, 24),
        get64(args, 16),
        get64(args, 56),
        m,
    )
}

/// What ends with a task: those who wait for it are woken, and the word at
/// which they wait is cleared.
pub open spec fn exit_done(before: Kernel, after: Kernel, output: Seq<u8>, r: ReplyV) -> bool {
    let t = before.task();
    let left = before.tasks@.with(Task { child_tidptr: None, ..ended(t) });
    &&& after.only_tasks(before)
    &&& match t.child_tidptr {
        None => after.tasks@ == left && r == (ReplyV { next: NextV::Exit, output, ..answer(0) }),
        Some(p) => after.tasks@ == (Tasks {
            slots: woken(left.slots, p, u32::MAX as int, MAX_TASKS as int),
            ..left
        }) && r == (ReplyV { next: NextV::Exit, output, ..storing(0, p, zeros(4)) }),
    }
}

pub(crate) fn sys_exit(k: &mut Kernel, output: Vec<u8>) -> (r: Reply)
    requires
        old(k).wf(),
    ensures
        final(k).wf(),
        exit_done(*old(k), *final(k), output@, r@),
{
    let mut r = match task_exit(&mut k.tasks) {
        None => Reply::plain(0),
        Some(p) => {
            let mut word: Vec<u8> = Vec::new();
            push_zeros(&mut word, 4);
            assert(word@ =~= zeros(4));
            store(0, p, word)
        },
    };
    r.next = Next::Exit;
    r.output = output;
    r
}

// ---- Waiting ----

pub const FUTEX_WAIT: u64 = 0;

pub const FUTEX_WAKE: u64 = 1;

pub const FUTEX_WAIT_BITSET: u64 = 9;

pub const FUTEX_CLOCK_REALTIME: u64 = 0x100;

/// An operation without the flags that make no difference here.
pub open spec fn futex_command(op: u64) -> u64 {
    op & 0xFFFF_FFFF_FFFF_FE7F
}

/// Why a wait is refused before anything is looked at in memory.
pub open spec fn futex_refused(uaddr: u64, op: u64, mask: u64) -> Option<i64> {
    let cmd = futex_command(op);
    if op & FUTEX_CLOCK_REALTIME != 0 && cmd != FUTEX_WAIT_BITSET {
        Some(ENOSYS)
    } else if (cmd == FUTEX_WAIT || cmd == FUTEX_WAIT_BITSET) && uaddr % 4 != 0 {
        Some(EINVAL)
    } else if cmd == FUTEX_WAIT_BITSET && mask % 0x1_0000_0000 == 0 {
        Some(EINVAL)
    } else if cmd == FUTEX_WAIT_BITSET && mask % 0x1_0000_0000 != 0xFFFF_FFFF {
        Some(ENOSYS)
    } else {
        None
    }
}

/// When a wait ends at the latest, if at all.
pub open spec fn futex_deadline(cmd: u64, timeout: u64, time: Seq<u8>, now: u64) -> Result<Option<u64>, i64> {
    if timeout == 0 {
        Ok(None)
    } else {
        match deadline_of(timeout, time, cmd == FUTEX_WAIT, now) {
            Ok(end) => Ok(Some(end)),
            Err(e) => Err(e),
        }
    }
}

/// What an operation on a word in memory does: a program can wait there, as
/// long as the word is as it expects, and others can wake it.
pub open spec fn futex_done(
    before: Kernel,
    after: Kernel,
    uaddr: u64,
    op: u64,
    val: u64,
    timeout: u64,
    mask: u64,
    time: Seq<u8>,
    word: Seq<u8>,
    now: u64,
    r: ReplyV,
) -> bool {
    let cmd = futex_command(op);
    let t = before.tasks@;
    &&& after.only_tasks(before)
    &&& match futex_refused(uaddr, op, mask) {
        Some(e) => after.tasks@ == t && r == failure(e),
        None => if cmd == FUTEX_WAIT || cmd == FUTEX_WAIT_BITSET {
            match futex_deadline(cmd, timeout, time, now) {
                Err(e) => after.tasks@ == t && r == failure(e),
                Ok(deadline) => if word.len() < 4 {
                    after.tasks@ == t && r == failure(EFAULT)
                } else if le32(word, 0) != val % 0x1_0000_0000 {
                    after.tasks@ == t && r == failure(EAGAIN)
                } else if deadline matches Some(end) && now >= end {
                    after.tasks@ == t && r == failure(ETIMEDOUT)
                } else {
                    &&& after.tasks@ == t.with(blocked(before.task(), Some(uaddr), deadline))
                    &&& r == (ReplyV { next: NextV::Wait, ..answer(0) })
                },
            }
        } else if cmd == FUTEX_WAKE {
            let max = (val % 0x1_0000_0000) as int;
            &&& after.tasks@ == (Tasks { slots: woken(t.slots, uaddr, max, MAX_TASKS as int), ..t })
            &&& r == answer(min(waiters(t.slots, uaddr, MAX_TASKS as int) as int, max) as u64)
        } else {
            after.tasks@ == t && r == (ReplyV { output: unknown_futex(op), ..failure(ENOSYS) })
        },
    }
}

pub open spec fn unknown_futex(op: u64) -> Seq<u8> {
    "linux_syscall: unimplemented futex op 0x".spec_bytes() + hex(op as nat) + "\n".spec_bytes()
}

#[verifier::spinoff_prover]
pub(crate) fn sys_futex(
    k: &mut Kernel,
    uaddr: u64,
    op: u64,
    val: u64,
    timeout: u64,
    mask: u64,
    time: &[u8],
    word: &[u8],
    now: u64,
) -> (r: Reply)
    requires
        old(k).wf(),
    ensures
        final(k).wf(),
        futex_done(*old(k), *final(k), uaddr, op, val, timeout, mask, time@, word@, now, r@),
{
    let cmd: u64 = op & 0xFFFF_FFFF_FFFF_FE7F;
    if op & FUTEX_CLOCK_REALTIME != 0 && cmd != FUTEX_WAIT_BITSET {
        return Reply::error(ENOSYS);
    }
    if cmd == FUTEX_WAIT || cmd == FUTEX_WAIT_BITSET {
        if uaddr % 4 != 0 {
            return Reply::error(EINVAL);
        }
        if cmd == FUTEX_WAIT_BITSET {
            let low: u64 = mask % 0x1_0000_0000;
            if low == 0 {
                return Reply::error(EINVAL);
            }
            if low != 0xFFFF_FFFF {
                return Reply::error(ENOSYS);
            }
        }
        let deadline: Option<u64> = if timeout == 0 {
            None
        } else {
            match timespec_deadline(timeout, time, cmd == FUTEX_WAIT, now) {
                Ok(end) => Some(end),
                Err(e) => {
                    return Reply::error(e);
                },
            }
        };
        if word.len() < 4 {
            return Reply::error(EFAULT);
        }
        if get32(word, 0) as u64 != val % 0x1_0000_0000 {
            return Reply::error(EAGAIN);
        }
        if futex_wait(&mut k.tasks, uaddr, deadline, now) {
            return Reply::error(ETIMEDOUT);
        }
        let mut r = Reply::plain(0);
        r.next = Next::Wait;
        return r;
    }
    if cmd == FUTEX_WAKE {
        let n: u32 = futex_wake(&mut k.tasks, uaddr, (val % 0x1_0000_0000) as u32);
        proof {
            crate::task_laws::lemma_woken_running(old(k).tasks@, uaddr, (val % 0x1_0000_0000) as int);
        }
        return Reply::plain(n as u64);
    }
    let mut text: Vec<u8> = Vec::new();
    push_str(&mut text, "linux_syscall: unimplemented futex op 0x");
    push_hex(&mut text, op);
    push_str(&mut text, "\n");
    assert(text@ =~= unknown_futex(op));
    let mut r = Reply::error(ENOSYS);
    r.output = text;
    r
}

/// What a program that waited is answered, by where its wait stands: nothing
/// while it goes on.
pub fn wait_answer(state: WaitState) -> (r: Option<u64>)
    ensures
        r == match state {
            WaitState::Waiting => None,
            WaitState::Woken => Some(0u64),
            WaitState::Expired => Some(encoded(ETIMEDOUT)),
        },
{
    match state {
        WaitState::Waiting => None,
        WaitState::Woken => Some(0),
        WaitState::Expired => Some(crate::linux_abi::encode(ETIMEDOUT)),
    }
}

pub open spec fn nanosleep_done(
    before: Kernel,
    after: Kernel,
    clock: u64,
    flags: u64,
    request: u64,
    time: Seq<u8>,
    now: u64,
    r: ReplyV,
) -> bool {
    let t = before.tasks@;
    &&& after.only_tasks(before)
    &&& if !is_clock(clock) || flags > 1 {
        after.tasks@ == t && r == failure(EINVAL)
    } else {
        match deadline_of(request, time, flags == 0, now) {
            Err(e) => after.tasks@ == t && r == failure(e),
            Ok(end) => if now >= end {
                after.tasks@ == t && r == answer(0)
            } else {
                &&& after.tasks@ == t.with(blocked(before.task(), None, Some(end)))
                &&& r == (ReplyV { next: NextV::Sleep, ..answer(0) })
            },
        }
    }
}

pub(crate) fn sys_clock_nanosleep(k: &mut Kernel, clock: u64, flags: u64, request: u64, time: &[u8], now: u64) -> (r:
    Reply)
    requires
        old(k).wf(),
    ensures
        final(k).wf(),
        nanosleep_done(*old(k), *final(k), clock, flags, request, time@, now, r@),
{
    if !(clock == CLOCK_REALTIME || clock == CLOCK_MONOTONIC || clock == CLOCK_BOOTTIME) || flags > 1 {
        return Reply::error(EINVAL);
    }
    let end: u64 = match timespec_deadline(request, time, flags == 0, now) {
        Ok(end) => end,
        Err(e) => {
            return Reply::error(e);
        },
    };
    let mut r = Reply::plain(0);
    if !sleep_until(&mut k.tasks, end, now) {
        r.next = Next::Sleep;
    }
    r
}

// ---- Signals ----

/// What a program is told of its handler for a signal.
pub open spec fn handler_bytes(h: (u64, u64, u64)) -> Seq<u8> {
    bytes64(h.0) + bytes64(h.1) + bytes64(h.2) + bytes64(0)
}

pub open spec fn sigaction_done(
    before: Kernel,
    after: Kernel,
    sig: u64,
    act_ptr: u64,
    old_ptr: u64,
    act: Seq<u8>,
    r: ReplyV,
) -> bool {
    let task = before.task();
    if sig == 0 || sig >= NSIG {
        after == before && r == failure(EINVAL)
    } else if act_ptr != 0 && act.len() < 24 {
        after == before && r == failure(EFAULT)
    } else {
        &&& after.only_tasks(before)
        &&& r == if old_ptr != 0 {
            storing(0, old_ptr, handler_bytes(task.sig_handlers@[sig as int]))
        } else {
            answer(0)
        }
        &&& if act_ptr == 0 {
            after.tasks@ == before.tasks@
        } else {
            let now = after.task();
            &&& after.tasks@ == before.tasks@.with(Task { sig_handlers: now.sig_handlers, ..task })
            &&& now.sig_handlers@ == task.sig_handlers@.update(
                sig as int,
                (le64(act, 0), le64(act, 8), le64(act, 16)),
            )
        }
    }
}

pub(crate) fn sys_rt_sigaction(k: &mut Kernel, sig: u64, act_ptr: u64, old_ptr: u64, act: &[u8]) -> (r: Reply)
    requires
        old(k).wf(),
    ensures
        final(k).wf(),
        sigaction_done(*old(k), *final(k), sig, act_ptr, old_ptr, act@, r@),
{
    if sig == 0 || sig >= NSIG as u64 {
        return Reply::error(EINVAL);
    }
    if act_ptr != 0 && act.len() < 24 {
        return Reply::error(EFAULT);
    }
    let r = if old_ptr != 0 {
        let (handler, flags, restorer) = sigaction(&k.tasks, sig);
        let mut out: Vec<u8> = Vec::new();
        put64(&mut out, handler);
        put64(&mut out, flags);
        put64(&mut out, restorer);
        put64(&mut out, 0);
        assert(out@ =~= handler_bytes((handler, flags, restorer)));
        store(0, old_ptr, out)
    } else {
        Reply::plain(0)
    };
    if act_ptr != 0 {
        set_sigaction(&mut k.tasks, sig, get64(act, 0), get64(act, 8), get64(act, 16));
    }
    r
}

/// What the return from a signal handler does: the program goes on where it
/// was, or ends if it was handling no signal.
pub open spec fn sigreturn_done(before: Kernel, after: Kernel, r: ReplyV) -> bool {
    let task = before.task();
    let done = Task { sig_delivering: None, sig_saved_ctx: None, ..task };
    match task.sig_saved_ctx {
        Some(ctx) => {
            &&& after.only_tasks(before)
            &&& after.tasks@ == before.tasks@.with(done)
            &&& r == (ReplyV { next: NextV::Restore(ctx), ..answer(0) })
        },
        None => exists|mid: Kernel|
            {
                &&& #[trigger] mid.only_tasks(before)
                &&& mid.tasks@ == before.tasks@.with(done)
                &&& exit_done(mid, after, stray_sigreturn(), r)
            },
    }
}

pub open spec fn stray_sigreturn() -> Seq<u8> {
    "linux_syscall: rt_sigreturn with no signal in progress -- killing task\n".spec_bytes()
}

pub(crate) fn sys_rt_sigreturn(k: &mut Kernel) -> (r: Reply)
    requires
        old(k).wf(),
    ensures
        final(k).wf(),
        sigreturn_done(*old(k), *final(k), r@),
{
    match end_signal_delivery(&mut k.tasks) {
        Some(ctx) => {
            let mut r = Reply::plain(0);
            r.next = Next::Restore(ctx);
            r
        },
        None => {
            let ghost mid = *k;
            let mut text: Vec<u8> = Vec::new();
            push_str(
                &mut text,
                "linux_syscall: rt_sigreturn with no signal in progress -- killing task\n",
            );
            assert(text@ =~= stray_sigreturn());
            let r = sys_exit(k, text);
            assert(mid.only_tasks(*old(k)));
            r
        },
    }
}

} // verus!
