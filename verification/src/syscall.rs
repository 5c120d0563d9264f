//! KonjacOS's own system calls, for programs that were built for it.
use crate::fat16::open_file;
use crate::kernel::{grow_heap, heap_moved, Kernel};
use crate::linux_abi::{answer, encode, encoded, push_zeros, store, storing, zeros, Reply, ReplyV};
use crate::linux_tasks::{exit_done, map_memory, sys_exit};
use crate::task::{
    admitted, first_frame, free_descriptor, free_slot, hash_path, install_file, lemma_read_result_len, path_hash,
    read_open_file, spawn_thread, spawned, take_file, FileBacking, OpenFile, OpenV, Task, MAX_OPEN_FILES, STACK_SIZE,
};
use crate::text::{decimal, is_utf8, push_bytes, push_decimal, push_str};
use crate::vm::mapping;
use crate::volume::{file_entry, min, opened};
use vstd::prelude::*;
use vstd::slice::{slice_subrange, slice_to_vec};
use vstd::string::*;
use vstd::utf8::valid_utf8;

verus! {

pub const SYSCALL_VECTOR: usize = 0x80;

pub const SYS_EXIT: u64 = 0;

pub const SYS_WRITE: u64 = 1;

pub const SYS_OPEN: u64 = 2;

pub const SYS_READ: u64 = 3;

pub const SYS_CLOSE: u64 = 4;

pub const SYS_BRK: u64 = 5;

pub const SYS_CLONE: u64 = 6;

pub const SYS_MMAP: u64 = 7;

/// The answer of a call that fails.
pub const SYS_ERROR: u64 = 0xFFFF_FFFF_FFFF_FFFF;

pub const MAX_WRITE_LEN: u64 = 4096;

pub const MAX_PATH_LEN: u64 = 256;

/// How many bytes of the program's memory, from its first argument on, a call
/// needs before it can be answered.
pub open spec fn input_len(number: u64, arg1: u64) -> u64 {
    let max = if number == SYS_WRITE {
        MAX_WRITE_LEN
    } else if number == SYS_OPEN {
        MAX_PATH_LEN
    } else {
        0
    };
    if arg1 < max {
        arg1
    } else {
        max
    }
}

pub fn want_len(number: u64, arg1: u64) -> (r: u64)
    ensures
        r == input_len(number, arg1),
{
    let max: u64 = if number == SYS_WRITE {
        MAX_WRITE_LEN
    } else if number == SYS_OPEN {
        MAX_PATH_LEN
    } else {
        0
    };
    if arg1 < max {
        arg1
    } else {
        max
    }
}

/// What the console shows of what a program writes.
pub open spec fn shown(b: Seq<u8>) -> Seq<u8> {
    if valid_utf8(b) {
        b
    } else {
        "write: not valid UTF-8 (".spec_bytes() + decimal(b.len()) + " bytes)\n".spec_bytes()
    }
}

fn show(b: &[u8]) -> (r: Vec<u8>)
    ensures
        r@ == shown(b@),
{
    let mut out: Vec<u8> = Vec::new();
    if is_utf8(b) {
        push_bytes(&mut out, b);
        assert(out@ =~= b@);
    } else {
        push_str(&mut out, "write: not valid UTF-8 (");
        push_decimal(&mut out, b.len() as u64);
        push_str(&mut out, " bytes)\n");
        assert(out@ =~= shown(b@));
    }
    out
}

/// What opening a file does. Files open for reading only.
pub open spec fn open_done(before: Kernel, after: Kernel, path: Seq<u8>, r: ReplyV) -> bool {
    &&& after.mem == before.mem
    &&& after.regions == before.regions
    &&& after.fs.only_read(before.fs)
    &&& match (file_entry(before.fs.volume(), before.fs.place(), path), free_descriptor(
        before.tasks@.descriptors(),
        0,
    )) {
        (Ok(e), Some(fd)) if valid_utf8(path) => {
            let file = OpenV { data: FileBacking::Disk(opened(e)), pos: 0, ino: path_hash(path), extra: None };
            &&& r == answer(fd as u64)
            &&& after.tasks@.only_files(before.tasks@, before.tasks@.descriptors().update(fd, Some(file)))
        },
        _ => after.tasks@ == before.tasks@ && r == answer(SYS_ERROR),
    }
}

fn sys_open(k: &mut Kernel, path: &[u8]) -> (r: Reply)
    requires
        old(k).wf(),
    ensures
        final(k).wf(),
        open_done(*old(k), *final(k), path@, r@),
{
    if !is_utf8(path) {
        return Reply::plain(SYS_ERROR);
    }
    let ino: u64 = hash_path(path);
    match open_file(&mut k.fs, path) {
        Ok(file) => {
            let opened_file = OpenFile { data: FileBacking::Disk(file), pos: 0, ino, extra: None };
            match install_file(&mut k.tasks, opened_file, 0) {
                Some(fd) => Reply::plain(fd as u64),
                None => Reply::plain(SYS_ERROR),
            }
        },
        Err(_) => Reply::plain(SYS_ERROR),
    }
}

/// What reading a file does.
pub open spec fn read_done(before: Kernel, after: Kernel, fd: u64, buf_ptr: u64, len: u64, r: ReplyV) -> bool {
    let want = min(len as int, MAX_WRITE_LEN as int);
    match before.tasks@.descriptor(fd as int) {
        None => after == before && r == answer(SYS_ERROR),
        Some(f) => {
            let (f1, out, n) = OpenFile::read_result(f, before.fs.disk@, before.fs.layout, zeros(want as nat), None);
            &&& after.mem == before.mem
            &&& after.regions == before.regions
            &&& after.fs.only_read(before.fs)
            &&& after.tasks@.only_files(
                before.tasks@,
                before.tasks@.descriptors().update(fd as int, Some(f1)),
            )
            &&& r == match n {
                Ok(m) => if m > 0 {
                    storing(m as u64, buf_ptr, out.take(m))
                } else {
                    answer(0)
                },
                Err(_) => answer(SYS_ERROR),
            }
        },
    }
}

fn sys_read(k: &mut Kernel, fd: u64, buf_ptr: u64, len: u64) -> (r: Reply)
    requires
        old(k).wf(),
    ensures
        final(k).wf(),
        read_done(*old(k), *final(k), fd, buf_ptr, len, r@),
{
    if fd >= MAX_OPEN_FILES as u64 {
        return Reply::plain(SYS_ERROR);
    }
    let t: usize = k.tasks.table_of_running();
    if k.tasks.files[t].entries[fd as usize].is_none() {
        return Reply::plain(SYS_ERROR);
    }
    let want: usize = if len < MAX_WRITE_LEN {
        len as usize
    } else {
        MAX_WRITE_LEN as usize
    };
    let mut buffer: Vec<u8> = Vec::new();
    push_zeros(&mut buffer, want);
    assert(buffer@ =~= zeros(want as nat));
    proof {
        let f = k.tasks@.descriptor(fd as int)->0;
        lemma_read_result_len(f, k.fs.disk@, k.fs.layout, zeros(want as nat), None);
    }
    match read_open_file(&mut k.tasks, &mut k.fs, fd as usize, &mut buffer, None) {
        Ok(n) => {
            if n == 0 {
                return Reply::plain(0);
            }
            assert(buffer@.take(n as int) =~= buffer@.subrange(0, n as int));
            store(n as u64, buf_ptr, slice_to_vec(slice_subrange(buffer.as_slice(), 0, n)))
        },
        Err(_) => Reply::plain(SYS_ERROR),
    }
}

/// What closing a file does.
pub open spec fn close_done(before: Kernel, after: Kernel, fd: u64, r: ReplyV) -> bool {
    match before.tasks@.descriptor(fd as int) {
        None => after == before && r == answer(SYS_ERROR),
        Some(_) => {
            &&& after.only_tasks(before)
            &&& after.tasks@.only_files(before.tasks@, before.tasks@.descriptors().update(fd as int, None))
            &&& r == answer(0)
        },
    }
}

fn sys_close(k: &mut Kernel, fd: u64) -> (r: Reply)
    requires
        old(k).wf(),
    ensures
        final(k).wf(),
        close_done(*old(k), *final(k), fd, r@),
{
    if fd >= MAX_OPEN_FILES as u64 {
        return Reply::plain(SYS_ERROR);
    }
    let t: usize = k.tasks.table_of_running();
    if k.tasks.files[t].entries[fd as usize].is_none() {
        return Reply::plain(SYS_ERROR);
    }
    let _ = take_file(&mut k.tasks, fd as usize);
    Reply::plain(0)
}

/// What starting a thread does.
pub open spec fn thread_done(before: Kernel, after: Kernel, entry: u64, stack_top: u64, base: u64, r: ReplyV) -> bool {
    let parent = before.task();
    let id = before.tasks@.next_id;
    &&& after.only_tasks(before)
    &&& match free_slot(before.tasks@.slots, 0) {
        None => after.tasks@ == before.tasks@ && r == answer(SYS_ERROR),
        Some(i) => {
            &&& r == answer(id)
            &&& admitted(before.tasks@, after.tasks@, i, None)
            &&& spawned(
                after.tasks@.slots[i]->0,
                id,
                "thread",
                first_frame(before.tasks@.enter_user, entry, stack_top),
                (base + STACK_SIZE) as u64,
                parent.cr3,
                parent.heap_end,
                parent.fs_base,
                None,
                parent.exe_path@,
            )
        },
    }
}

/// What mapping memory does: anonymous memory, to be read, written and run.
pub open spec fn mmap_done(before: Kernel, after: Kernel, len: u64, r: ReplyV) -> bool {
    let (t, m, x) = mapping(before.regions@, before.mem@, before.space(), 0, len, 7, 0x22, None, 0);
    &&& after.tasks == before.tasks
    &&& after.fs == before.fs
    &&& after.same_machine(before)
    &&& after.regions@ == t
    &&& after.mem@ == m
    &&& r == match x {
        Ok(start) => answer(encoded(start)),
        Err(_) => answer(SYS_ERROR),
    }
}

pub open spec fn unknown_call(number: u64) -> Seq<u8> {
    "syscall: unknown number ".spec_bytes() + decimal(number as nat) + "\n".spec_bytes()
}

/// What a call does. `input` is what it needs of the program's memory, and
/// `base` the place for the kernel stack of a new thread.
pub open spec fn call_done(
    before: Kernel,
    after: Kernel,
    number: u64,
    arg0: u64,
    arg1: u64,
    arg2: u64,
    input: Seq<u8>,
    base: u64,
    r: ReplyV,
) -> bool {
    if number == SYS_WRITE {
        after == before && r == (ReplyV { output: shown(input), ..answer(0) })
    } else if number == SYS_OPEN {
        open_done(before, after, input, r)
    } else if number == SYS_READ {
        read_done(before, after, arg0, arg1, arg2, r)
    } else if number == SYS_CLOSE {
        close_done(before, after, arg0, r)
    } else if number == SYS_BRK {
        let (m, end) = heap_moved(before, arg0);
        &&& after.same_machine(before)
        &&& after.regions == before.regions
        &&& after.fs == before.fs
        &&& after.mem@ == m
        &&& after.tasks@ == before.tasks@.with(Task { heap_end: end, ..before.task() })
        &&& r == answer(end)
    } else if number == SYS_CLONE {
        thread_done(before, after, arg0, arg1, base, r)
    } else if number == SYS_MMAP {
        mmap_done(before, after, arg0, r)
    } else if number == SYS_EXIT {
        exit_done(before, after, Seq::empty(), r)
    } else {
        after == before && r == (ReplyV { output: unknown_call(number), ..answer(SYS_ERROR) })
    }
}

/// Answers one of KonjacOS's own system calls.
#[verifier::spinoff_prover]
pub fn syscall_handler(
    k: &mut Kernel,
    number: u64,
    arg0: u64,
    arg1: u64,
    arg2: u64,
    input: &[u8],
    base: u64,
) -> (r: Reply)
    requires
        old(k).wf(),
        base + STACK_SIZE <= u64::MAX,
    ensures
        final(k).wf(),
        call_done(*old(k), *final(k), number, arg0, arg1, arg2, input@, base, r@),
{
    if number == SYS_WRITE {
        let mut r = Reply::plain(0);
        r.output = show(input);
        r
    } else if number == SYS_OPEN {
        sys_open(k, input)
    } else if number == SYS_READ {
        sys_read(k, arg0, arg1, arg2)
    } else if number == SYS_CLOSE {
        sys_close(k, arg0)
    } else if number == SYS_BRK {
        let end: u64 = grow_heap(k, arg0);
        Reply::plain(end)
    } else if number == SYS_CLONE {
        proof {
            crate::task::lemma_free_slot(k.tasks@.slots, 0);
        }
        match spawn_thread(&mut k.tasks, "thread", arg0, arg1, base) {
            Some(id) => Reply::plain(id),
            None => Reply::plain(SYS_ERROR),
        }
    } else if number == SYS_MMAP {
        match map_memory(k, 0, arg0, 7, 0x22, None, 0) {
            Ok(start) => Reply::plain(encode(start)),
            Err(_) => Reply::plain(SYS_ERROR),
        }
    } else if number == SYS_EXIT {
        let none: Vec<u8> = Vec::new();
        assert(none@ =~= Seq::empty());
        sys_exit(k, none)
    } else {
        let mut out: Vec<u8> = Vec::new();
        push_str(&mut out, "syscall: unknown number ");
        push_decimal(&mut out, number);
        push_str(&mut out, "\n");
        assert(out@ =~= unknown_call(number));
        let mut r = Reply::plain(SYS_ERROR);
        r.output = out;
        r
    }
}

} // verus!
