//! The dispatcher of Linux system calls: what each call needs of the
//! program's memory, and what it does.
use crate::kernel::{grow_heap, heap_moved, Kernel};
use crate::linux_abi::{
    affinity_reply, answer, c_string, console_texts, failure, getcpu_reply, getrandom_reply, getres_reply,
    gettime_reply, ioctl_reply, pieces_view, prlimit_reply, read_c_string, storing, sys_clock_getres,
    sys_clock_gettime, sys_getcpu, sys_getrandom, sys_gettimeofday, sys_ioctl, sys_prlimit64, sys_sched_getaffinity,
    sys_sysinfo, sys_uname, sys_writev, system_info, system_name, timeofday_reply, total_len, Next, NextV, Reply,
    ReplyV, CLOCK_MONOTONIC, EEXIST, EINVAL, ENOENT, ENOSYS, MAX_IOVEC, MAX_IO_LEN,
};
use crate::linux_files::{
    access_reply, close_done, fchdir_done, fstat_reply, ftruncate_done, getcwd_reply, lseek_done, open_done,
    pread_done, read_done, read_file_chunks, readlink_reply, stat_reply, sys_access, sys_close, sys_fchdir, sys_fstat,
    sys_ftruncate, sys_getcwd, sys_lseek, sys_newfstatat, sys_open, sys_pread64, sys_readlink, sys_unlink, sys_write,
    text_view, unlink_done, write_done,
};
use crate::linux_tasks::{
    arch_prctl_done, clone3_done, exit_done, futex_command, futex_done, futex_refused, mmap_done, mprotect_done,
    munmap_done, nanosleep_done, sigaction_done, sigreturn_done, sys_arch_prctl, sys_clock_nanosleep, sys_clone,
    sys_clone3, sys_clone_done, sys_exit, sys_futex, sys_mmap, sys_mprotect, sys_munmap, sys_rt_sigaction,
    sys_rt_sigreturn, Machine, FUTEX_WAIT, FUTEX_WAIT_BITSET,
};
use crate::pmm::stats;
use crate::task::{current_id, Task, STACK_SIZE};
use crate::text::{decimal, hex, push_decimal, push_hex, push_str, same_bytes};
use crate::timer::HZ;
use vstd::prelude::*;
use vstd::string::*;

verus! {

pub const SYS_READ: u64 = 0;

pub const SYS_WRITE: u64 = 1;

pub const SYS_OPEN: u64 = 2;

pub const SYS_CLOSE: u64 = 3;

pub const SYS_FSTAT: u64 = 5;

pub const SYS_LSEEK: u64 = 8;

pub const SYS_MMAP: u64 = 9;

pub const SYS_MPROTECT: u64 = 10;

pub const SYS_MUNMAP: u64 = 11;

pub const SYS_BRK: u64 = 12;

pub const SYS_RT_SIGACTION: u64 = 13;

pub const SYS_RT_SIGPROCMASK: u64 = 14;

pub const SYS_RT_SIGRETURN: u64 = 15;

pub const SYS_IOCTL: u64 = 16;

pub const SYS_PREAD64: u64 = 17;

pub const SYS_WRITEV: u64 = 20;

pub const SYS_ACCESS: u64 = 21;

pub const SYS_SCHED_YIELD: u64 = 24;

pub const SYS_MADVISE: u64 = 28;

pub const SYS_NANOSLEEP: u64 = 35;

pub const SYS_GETPID: u64 = 39;

pub const SYS_CLONE: u64 = 56;

pub const SYS_EXIT: u64 = 60;

pub const SYS_UNAME: u64 = 63;

pub const SYS_FCNTL: u64 = 72;

pub const SYS_FLOCK: u64 = 73;

pub const SYS_FTRUNCATE: u64 = 77;

pub const SYS_GETCWD: u64 = 79;

pub const SYS_FCHDIR: u64 = 81;

pub const SYS_MKDIR: u64 = 83;

pub const SYS_UNLINK: u64 = 87;

pub const SYS_READLINK: u64 = 89;

pub const SYS_GETTIMEOFDAY: u64 = 96;

pub const SYS_SYSINFO: u64 = 99;

pub const SYS_GETUID: u64 = 102;

pub const SYS_GETGID: u64 = 104;

pub const SYS_GETEUID: u64 = 107;

pub const SYS_GETEGID: u64 = 108;

pub const SYS_PRCTL: u64 = 157;

pub const SYS_ARCH_PRCTL: u64 = 158;

pub const SYS_GETTID: u64 = 186;

pub const SYS_FUTEX: u64 = 202;

pub const SYS_SCHED_GETAFFINITY: u64 = 204;

pub const SYS_SET_TID_ADDRESS: u64 = 218;

pub const SYS_CLOCK_GETTIME: u64 = 228;

pub const SYS_CLOCK_GETRES: u64 = 229;

pub const SYS_CLOCK_NANOSLEEP: u64 = 230;

pub const SYS_EXIT_GROUP: u64 = 231;

pub const SYS_OPENAT: u64 = 257;

pub const SYS_MKDIRAT: u64 = 258;

pub const SYS_NEWFSTATAT: u64 = 262;

pub const SYS_UNLINKAT: u64 = 263;

pub const SYS_READLINKAT: u64 = 267;

pub const SYS_SET_ROBUST_LIST: u64 = 273;

pub const SYS_PRLIMIT64: u64 = 302;

pub const SYS_GETCPU: u64 = 309;

pub const SYS_GETRANDOM: u64 = 318;

pub const SYS_RSEQ: u64 = 334;

pub const SYS_CLONE3: u64 = 435;

/// The arguments of a call.
#[derive(Clone, Copy, PartialEq, Eq, Structural, Debug)]
pub struct Args {
    pub a0: u64,
    pub a1: u64,
    pub a2: u64,
    pub a3: u64,
    pub a4: u64,
}

/// What a call needs of the program's memory, or of the machine, before it
/// can be answered.
pub enum Want {
    Nothing,
    /// The bytes from an address on, up to a zero.
    Text(u64),
    /// Runs of bytes, each with its address and its length.
    Ranges(Vec<(u64, u64)>),
    /// The runs of bytes that a list at an address names, so many of them.
    Vectors(u64, u64),
    /// So many random bytes.
    Random(u64),
}

pub ghost enum WantV {
    Nothing,
    Text(u64),
    Ranges(Seq<(u64, u64)>),
    Vectors(u64, u64),
    Random(u64),
}

impl Want {
    pub open spec fn view(self) -> WantV {
        match self {
            Want::Nothing => WantV::Nothing,
            Want::Text(p) => WantV::Text(p),
            Want::Ranges(v) => WantV::Ranges(v@),
            Want::Vectors(p, n) => WantV::Vectors(p, n),
            Want::Random(n) => WantV::Random(n),
        }
    }
}

pub open spec fn at_most(n: u64, max: u64) -> u64 {
    if n < max {
        n
    } else {
        max
    }
}

/// The word that a wait looks at, and the time that it is given.
pub open spec fn futex_ranges(uaddr: u64, timeout: u64) -> Seq<(u64, u64)> {
    if timeout == 0 {
        seq![(uaddr, 4u64)]
    } else {
        seq![(timeout, 16u64), (uaddr, 4u64)]
    }
}

/// Whether a time can be read at an address.
pub open spec fn time_range(ptr: u64) -> WantV {
    if ptr == 0 || ptr + 16 > u64::MAX {
        WantV::Nothing
    } else {
        WantV::Ranges(seq![(ptr, 16u64)])
    }
}

pub open spec fn wanted(number: u64, a: Args, mask: u64) -> WantV {
    if number == SYS_OPEN || number == SYS_ACCESS || number == SYS_MKDIR || number == SYS_UNLINK {
        WantV::Text(a.a0)
    } else if number == SYS_READLINK && a.a2 != 0 {
        WantV::Text(a.a0)
    } else if number == SYS_OPENAT || number == SYS_NEWFSTATAT || number == SYS_MKDIRAT || number == SYS_UNLINKAT {
        WantV::Text(a.a1)
    } else if number == SYS_READLINKAT && a.a3 != 0 {
        WantV::Text(a.a1)
    } else if number == SYS_WRITE && a.a2 > 0 {
        WantV::Ranges(seq![(a.a1, at_most(a.a2, MAX_IO_LEN as u64))])
    } else if number == SYS_WRITEV {
        WantV::Vectors(a.a1, at_most(a.a2, MAX_IOVEC as u64))
    } else if number == SYS_GETRANDOM {
        WantV::Random(at_most(a.a1, MAX_IO_LEN as u64))
    } else if number == SYS_CLONE3 && a.a1 >= 64 {
        WantV::Ranges(seq![(a.a0, 64u64)])
    } else if number == SYS_RT_SIGACTION && 0 < a.a0 < 32 && a.a1 != 0 {
        WantV::Ranges(seq![(a.a1, 24u64)])
    } else if number == SYS_NANOSLEEP {
        time_range(a.a0)
    } else if number == SYS_CLOCK_NANOSLEEP && crate::linux_abi::is_clock(a.a0) && a.a1 <= 1 {
        time_range(a.a2)
    } else if number == SYS_FUTEX && (futex_command(a.a1) == FUTEX_WAIT || futex_command(a.a1) == FUTEX_WAIT_BITSET)
        && futex_refused(a.a0, a.a1, mask) is None && (a.a3 == 0 || a.a3 + 16 <= u64::MAX) {
        WantV::Ranges(futex_ranges(a.a0, a.a3))
    } else {
        WantV::Nothing
    }
}

fn one_range(at: u64, len: u64) -> (r: Want)
    ensures
        r@ == WantV::Ranges(seq![(at, len)]),
{
    let mut v: Vec<(u64, u64)> = Vec::new();
    v.push((at, len));
    assert(v@ =~= seq![(at, len)]);
    Want::Ranges(v)
}

fn want_time(ptr: u64) -> (r: Want)
    ensures
        r@ == time_range(ptr),
{
    if ptr == 0 || ptr.checked_add(16).is_none() {
        Want::Nothing
    } else {
        one_range(ptr, 16)
    }
}

/// Whether a wait gets as far as looking at memory.
fn futex_looks(uaddr: u64, op: u64, mask: u64) -> (r: bool)
    ensures
        r == ((futex_command(op) == FUTEX_WAIT || futex_command(op) == FUTEX_WAIT_BITSET) && futex_refused(
            uaddr,
            op,
            mask,
        ) is None),
{
    let cmd: u64 = op & 0xFFFF_FFFF_FFFF_FE7F;
    if op & 0x100 != 0 && cmd != FUTEX_WAIT_BITSET {
        return false;
    }
    if cmd != FUTEX_WAIT && cmd != FUTEX_WAIT_BITSET {
        return false;
    }
    uaddr % 4 == 0 && (cmd != FUTEX_WAIT_BITSET || mask % 0x1_0000_0000 == 0xFFFF_FFFF)
}

/// What a call needs before it can be answered. `mask` is its sixth argument.
pub fn want(number: u64, a: Args, mask: u64) -> (r: Want)
    ensures
        r@ == wanted(number, a, mask),
{
    if number == SYS_OPEN || number == SYS_ACCESS || number == SYS_MKDIR || number == SYS_UNLINK {
        Want::Text(a.a0)
    } else if number == SYS_READLINK && a.a2 != 0 {
        Want::Text(a.a0)
    } else if number == SYS_OPENAT || number == SYS_NEWFSTATAT || number == SYS_MKDIRAT || number == SYS_UNLINKAT {
        Want::Text(a.a1)
    } else if number == SYS_READLINKAT && a.a3 != 0 {
        Want::Text(a.a1)
    } else if number == SYS_WRITE && a.a2 > 0 {
        let n: u64 = if a.a2 < MAX_IO_LEN as u64 {
            a.a2
        } else {
            MAX_IO_LEN as u64
        };
        one_range(a.a1, n)
    } else if number == SYS_WRITEV {
        let n: u64 = if a.a2 < MAX_IOVEC as u64 {
            a.a2
        } else {
            MAX_IOVEC as u64
        };
        Want::Vectors(a.a1, n)
    } else if number == SYS_GETRANDOM {
        let n: u64 = if a.a1 < MAX_IO_LEN as u64 {
            a.a1
        } else {
            MAX_IO_LEN as u64
        };
        Want::Random(n)
    } else if number == SYS_CLONE3 && a.a1 >= 64 {
        one_range(a.a0, 64)
    } else if number == SYS_RT_SIGACTION && 0 < a.a0 && a.a0 < 32 && a.a1 != 0 {
        one_range(a.a1, 24)
    } else if number == SYS_NANOSLEEP {
        want_time(a.a0)
    } else if number == SYS_CLOCK_NANOSLEEP && (a.a0 == 0 || a.a0 == 1 || a.a0 == 7) && a.a1 <= 1 {
        want_time(a.a2)
    } else if number == SYS_FUTEX && futex_looks(a.a0, a.a1, mask) && (a.a3 == 0 || a.a3.checked_add(16).is_some()) {
        if a.a3 == 0 {
            one_range(a.a0, 4)
        } else {
            let mut v: Vec<(u64, u64)> = Vec::new();
            v.push((a.a3, 16));
            v.push((a.a0, 4));
            assert(v@ =~= futex_ranges(a.a0, a.a3));
            Want::Ranges(v)
        }
    } else {
        Want::Nothing
    }
}

pub open spec fn piece(p: Seq<Seq<u8>>, i: int) -> Seq<u8> {
    if 0 <= i < p.len() {
        p[i]
    } else {
        Seq::empty()
    }
}

fn get_piece(p: &Vec<Vec<u8>>, i: usize) -> (r: Vec<u8>)
    ensures
        r@ == piece(pieces_view(p@), i as int),
{
    if i < p.len() {
        vstd::slice::slice_to_vec(p[i].as_slice())
    } else {
        let r: Vec<u8> = Vec::new();
        assert(r@ =~= Seq::empty());
        r
    }
}

/// What the console shows of a call that is not known.
pub open spec fn unknown_call(number: u64, a: Args) -> Seq<u8> {
    "linux_syscall: unimplemented syscall number ".spec_bytes() + decimal(number as nat) + " (a0=0x".spec_bytes() + hex(
        a.a0 as nat,
    ) + " a1=0x".spec_bytes() + hex(a.a1 as nat) + " a2=0x".spec_bytes() + hex(a.a2 as nat) + " a3=0x".spec_bytes() + hex(
        a.a3 as nat,
    ) + " a4=0x".spec_bytes() + hex(a.a4 as nat) + ")\n".spec_bytes()
}

fn unknown_text(number: u64, a: Args) -> (r: Vec<u8>)
    ensures
        r@ == unknown_call(number, a),
{
    let mut out: Vec<u8> = Vec::new();
    push_str(&mut out, "linux_syscall: unimplemented syscall number ");
    push_decimal(&mut out, number);
    push_str(&mut out, " (a0=0x");
    push_hex(&mut out, a.a0);
    push_str(&mut out, " a1=0x");
    push_hex(&mut out, a.a1);
    push_str(&mut out, " a2=0x");
    push_hex(&mut out, a.a2);
    push_str(&mut out, " a3=0x");
    push_hex(&mut out, a.a3);
    push_str(&mut out, " a4=0x");
    push_hex(&mut out, a.a4);
    push_str(&mut out, ")\n");
    assert(out@ =~= unknown_call(number, a));
    out
}

pub open spec fn brk_done(before: Kernel, after: Kernel, requested: u64, r: ReplyV) -> bool {
    let (m, end) = heap_moved(before, requested);
    &&& after.same_machine(before)
    &&& after.regions == before.regions
    &&& after.fs == before.fs
    &&& after.mem@ == m
    &&& after.tasks@ == before.tasks@.with(Task { heap_end: end, ..before.task() })
    &&& r == answer(end)
}

/// A directory is to be made by whoever can.
pub open spec fn mkdir_reply(path: Option<Seq<u8>>) -> ReplyV {
    match path {
        None => failure(EINVAL),
        Some(p) => ReplyV { next: NextV::MakeDirectory(p), ..answer(0) },
    }
}

fn sys_mkdir(path: Option<Vec<u8>>) -> (r: Reply)
    ensures
        r@ == mkdir_reply(text_view(path)),
{
    match path {
        None => Reply::error(EINVAL),
        Some(p) => {
            let mut r = Reply::plain(0);
            r.next = Next::MakeDirectory(p);
            r
        },
    }
}

/// What a program is answered once a directory has been made, or not.
pub fn mkdir_answer(made: Result<(), &'static str>) -> (r: u64)
    ensures
        r == match made {
            Ok(_) => 0,
            Err(e) => if e.spec_bytes() == "already exists".spec_bytes() {
                crate::linux_abi::encoded(EEXIST)
            } else {
                crate::linux_abi::encoded(ENOENT)
            },
        },
{
    match made {
        Ok(_) => 0,
        Err(e) => if same_bytes(e.as_bytes(), "already exists".as_bytes()) {
            crate::linux_abi::encode(EEXIST)
        } else {
            crate::linux_abi::encode(ENOENT)
        },
    }
}

/// The time that a wait was given, among the pieces that it asked for.
pub open spec fn futex_time(p: Seq<Seq<u8>>, timeout: u64) -> Seq<u8> {
    if timeout == 0 {
        Seq::empty()
    } else {
        piece(p, 0)
    }
}

/// The word that a wait looks at.
pub open spec fn futex_word(p: Seq<Seq<u8>>, timeout: u64) -> Seq<u8> {
    if timeout == 0 {
        piece(p, 0)
    } else {
        piece(p, 1)
    }
}

fn futex_pieces(p: &Vec<Vec<u8>>, timeout: u64) -> (r: (Vec<u8>, Vec<u8>))
    ensures
        r.0@ == futex_time(pieces_view(p@), timeout),
        r.1@ == futex_word(pieces_view(p@), timeout),
{
    if timeout == 0 {
        let none: Vec<u8> = Vec::new();
        assert(none@ =~= Seq::empty());
        (none, get_piece(p, 0))
    } else {
        (get_piece(p, 0), get_piece(p, 1))
    }
}

/// Whether a call is one on files.
pub open spec fn is_file_call(number: u64) -> bool {
    ||| number == SYS_WRITE
    ||| number == SYS_WRITEV
    ||| number == SYS_READ
    ||| number == SYS_PREAD64
    ||| number == SYS_LSEEK
    ||| number == SYS_CLOSE
    ||| number == SYS_OPEN
    ||| number == SYS_OPENAT
    ||| number == SYS_FSTAT
    ||| number == SYS_NEWFSTATAT
    ||| number == SYS_ACCESS
    ||| number == SYS_READLINK
    ||| number == SYS_READLINKAT
    ||| number == SYS_UNLINK
    ||| number == SYS_UNLINKAT
    ||| number == SYS_MKDIR
    ||| number == SYS_MKDIRAT
    ||| number == SYS_FCHDIR
    ||| number == SYS_FTRUNCATE
    ||| number == SYS_GETCWD
    ||| number == SYS_IOCTL
}

/// What the calls on files do.
pub open spec fn file_call_done(
    before: Kernel,
    after: Kernel,
    number: u64,
    a: Args,
    m: Machine,
    p: Seq<Seq<u8>>,
    r: ReplyV,
) -> bool {
    let text = c_string(piece(p, 0));
    let v = before.fs.volume();
    let place = before.fs.place();
    if number == SYS_WRITE {
        write_done(before, after, a.a0, piece(p, 0), r)
    } else if number == SYS_WRITEV {
        after == before && r == (ReplyV {
            output: console_texts(p),
            ..answer((total_len(p) % 0x1_0000_0000_0000_0000) as u64)
        })
    } else if number == SYS_READ {
        read_done(before, after, a.a0, a.a1, a.a2, None, r)
    } else if number == SYS_PREAD64 {
        pread_done(before, after, a.a0, a.a1, a.a2, a.a3, r)
    } else if number == SYS_LSEEK {
        lseek_done(before, after, a.a0, a.a1, a.a2, r)
    } else if number == SYS_CLOSE {
        close_done(before, after, a.a0, r)
    } else if number == SYS_OPEN {
        open_done(before, after, text, a.a1, r)
    } else if number == SYS_OPENAT {
        open_done(before, after, text, a.a2, r)
    } else if number == SYS_FSTAT {
        after == before && r == fstat_reply(before, a.a0, a.a1)
    } else if number == SYS_NEWFSTATAT {
        after.only_read(before) && r == stat_reply(v, place, text, a.a2)
    } else if number == SYS_ACCESS {
        after.only_read(before) && r == access_reply(v, place, text)
    } else if number == SYS_READLINK {
        after.only_read(before) && r == readlink_reply(before, text, a.a1, a.a2)
    } else if number == SYS_READLINKAT {
        after.only_read(before) && r == readlink_reply(before, text, a.a2, a.a3)
    } else if number == SYS_UNLINK || number == SYS_UNLINKAT {
        unlink_done(before, after, text, r)
    } else if number == SYS_MKDIR || number == SYS_MKDIRAT {
        after == before && r == mkdir_reply(text)
    } else if number == SYS_FCHDIR {
        fchdir_done(before, after, a.a0, r)
    } else if number == SYS_FTRUNCATE {
        ftruncate_done(before, after, a.a0, a.a1, r)
    } else if number == SYS_GETCWD {
        after == before && r == getcwd_reply(before.fs, a.a0, a.a1)
    } else {
        after == before && r == ioctl_reply(a.a1)
    }
}

#[verifier::spinoff_prover]
#[verifier::rlimit(60)]
fn file_call(k: &mut Kernel, number: u64, a: Args, m: &Machine, p: &Vec<Vec<u8>>) -> (r: Reply)
    requires
        old(k).wf(),
        m.stack + STACK_SIZE <= u64::MAX,
        is_file_call(number),
    ensures
        final(k).wf(),
        file_call_done(*old(k), *final(k), number, a, *m, pieces_view(p@), r@),
{
    let path: Option<Vec<u8>> = read_c_string(get_piece(p, 0).as_slice());
    if number == SYS_WRITE {
        sys_write(k, a.a0, get_piece(p, 0).as_slice())
    } else if number == SYS_WRITEV {
        sys_writev(p)
    } else if number == SYS_READ {
        read_file_chunks(k, a.a0, a.a1, a.a2, None)
    } else if number == SYS_PREAD64 {
        sys_pread64(k, a.a0, a.a1, a.a2, a.a3)
    } else if number == SYS_LSEEK {
        sys_lseek(k, a.a0, a.a1, a.a2)
    } else if number == SYS_CLOSE {
        sys_close(k, a.a0)
    } else if number == SYS_OPEN {
        sys_open(k, &path, a.a1)
    } else if number == SYS_OPENAT {
        sys_open(k, &path, a.a2)
    } else if number == SYS_FSTAT {
        sys_fstat(k, a.a0, a.a1)
    } else if number == SYS_NEWFSTATAT {
        sys_newfstatat(k, &path, a.a2)
    } else if number == SYS_ACCESS {
        sys_access(k, &path)
    } else if number == SYS_READLINK {
        sys_readlink(k, &path, a.a1, a.a2)
    } else if number == SYS_READLINKAT {
        sys_readlink(k, &path, a.a2, a.a3)
    } else if number == SYS_UNLINK || number == SYS_UNLINKAT {
        sys_unlink(k, &path)
    } else if number == SYS_MKDIR || number == SYS_MKDIRAT {
        sys_mkdir(path)
    } else if number == SYS_FCHDIR {
        sys_fchdir(k, a.a0)
    } else if number == SYS_FTRUNCATE {
        sys_ftruncate(k, a.a0, a.a1)
    } else if number == SYS_GETCWD {
        sys_getcwd(&k.fs, a.a0, a.a1)
    } else {
        sys_ioctl(a.a1)
    }
}

/// Whether a call is one on memory, tasks, waiting and signals.
pub open spec fn is_task_call(number: u64) -> bool {
    ||| number == SYS_ARCH_PRCTL
    ||| number == SYS_BRK
    ||| number == SYS_MMAP
    ||| number == SYS_MPROTECT
    ||| number == SYS_MUNMAP
    ||| number == SYS_CLONE
    ||| number == SYS_CLONE3
    ||| number == SYS_FUTEX
    ||| number == SYS_NANOSLEEP
    ||| number == SYS_CLOCK_NANOSLEEP
    ||| number == SYS_RT_SIGACTION
    ||| number == SYS_RT_SIGRETURN
    ||| number == SYS_EXIT
    ||| number == SYS_EXIT_GROUP
}

/// What the calls on memory, tasks, waiting and signals do.
pub open spec fn task_call_done(
    before: Kernel,
    after: Kernel,
    number: u64,
    a: Args,
    m: Machine,
    p: Seq<Seq<u8>>,
    r: ReplyV,
) -> bool {
    if number == SYS_ARCH_PRCTL {
        arch_prctl_done(before, after, a.a0, a.a1, r)
    } else if number == SYS_BRK {
        brk_done(before, after, a.a0, r)
    } else if number == SYS_MMAP {
        mmap_done(before, after, a.a0, a.a1, a.a2, a.a3, a.a4, m.frame@[5], r)
    } else if number == SYS_MPROTECT {
        mprotect_done(before, after, a.a0, a.a1, a.a2, r)
    } else if number == SYS_MUNMAP {
        munmap_done(before, after, a.a0, a.a1, r)
    } else if number == SYS_CLONE {
        sys_clone_done(before, after, a.a0, a.a1, a.a2, a.a3, a.a4, m, r)
    } else if number == SYS_CLONE3 {
        clone3_done(before, after, piece(p, 0), a.a1, m, r)
    } else if number == SYS_FUTEX {
        futex_done(before, after, a.a0, a.a1, a.a2, a.a3, m.frame@[5], futex_time(p, a.a3), futex_word(p, a.a3), m.now, r)
    } else if number == SYS_NANOSLEEP {
        nanosleep_done(before, after, CLOCK_MONOTONIC, 0, a.a0, piece(p, 0), m.now, r)
    } else if number == SYS_CLOCK_NANOSLEEP {
        nanosleep_done(before, after, a.a0, a.a1, a.a2, piece(p, 0), m.now, r)
    } else if number == SYS_RT_SIGACTION {
        sigaction_done(before, after, a.a0, a.a1, a.a2, piece(p, 0), r)
    } else if number == SYS_RT_SIGRETURN {
        sigreturn_done(before, after, r)
    } else {
        exit_done(before, after, Seq::empty(), r)
    }
}

#[verifier::spinoff_prover]
#[verifier::rlimit(60)]
fn task_call(k: &mut Kernel, number: u64, a: Args, m: &Machine, p: &Vec<Vec<u8>>) -> (r: Reply)
    requires
        old(k).wf(),
        m.stack + STACK_SIZE <= u64::MAX,
        is_task_call(number),
    ensures
        final(k).wf(),
        task_call_done(*old(k), *final(k), number, a, *m, pieces_view(p@), r@),
{
    if number == SYS_ARCH_PRCTL {
        sys_arch_prctl(k, a.a0, a.a1)
    } else if number == SYS_BRK {
        let end: u64 = grow_heap(k, a.a0);
        Reply::plain(end)
    } else if number == SYS_MMAP {
        sys_mmap(k, a.a0, a.a1, a.a2, a.a3, a.a4, m.frame[5])
    } else if number == SYS_MPROTECT {
        sys_mprotect(k, a.a0, a.a1, a.a2)
    } else if number == SYS_MUNMAP {
        sys_munmap(k, a.a0, a.a1)
    } else if number == SYS_CLONE {
        sys_clone(k, a.a0, a.a1, a.a2, a.a3, a.a4, m)
    } else if number == SYS_CLONE3 {
        sys_clone3(k, get_piece(p, 0).as_slice(), a.a1, m)
    } else if number == SYS_FUTEX {
        let (time, word) = futex_pieces(p, a.a3);
        sys_futex(k, a.a0, a.a1, a.a2, a.a3, m.frame[5], time.as_slice(), word.as_slice(), m.now)
    } else if number == SYS_NANOSLEEP {
        sys_clock_nanosleep(k, CLOCK_MONOTONIC, 0, a.a0, get_piece(p, 0).as_slice(), m.now)
    } else if number == SYS_CLOCK_NANOSLEEP {
        sys_clock_nanosleep(k, a.a0, a.a1, a.a2, get_piece(p, 0).as_slice(), m.now)
    } else if number == SYS_RT_SIGACTION {
        sys_rt_sigaction(k, a.a0, a.a1, a.a2, get_piece(p, 0).as_slice())
    } else if number == SYS_RT_SIGRETURN {
        sys_rt_sigreturn(k)
    } else {
        let none: Vec<u8> = Vec::new();
        assert(none@ =~= Seq::empty());
        sys_exit(k, none)
    }
}

/// The answers of the calls that change nothing.
pub open spec fn info_reply(k: Kernel, number: u64, a: Args, m: Machine, p: Seq<Seq<u8>>) -> ReplyV {
    if number == SYS_SET_TID_ADDRESS || number == SYS_GETPID || number == SYS_GETTID {
        answer(k.task().id)
    } else if number == SYS_FLOCK || number == SYS_MADVISE || number == SYS_GETUID || number == SYS_GETEUID
        || number == SYS_GETGID || number == SYS_GETEGID || number == SYS_PRCTL || number == SYS_SET_ROBUST_LIST
        || number == SYS_FCNTL || number == SYS_RT_SIGPROCMASK {
        answer(0)
    } else if number == SYS_CLOCK_GETTIME {
        gettime_reply(a.a0, a.a1, m.now)
    } else if number == SYS_GETTIMEOFDAY {
        timeofday_reply(a.a0, m.now)
    } else if number == SYS_CLOCK_GETRES {
        getres_reply(a.a0, a.a1)
    } else if number == SYS_SCHED_YIELD {
        ReplyV { next: NextV::Yield, ..answer(0) }
    } else if number == SYS_GETRANDOM {
        getrandom_reply(m.random, a.a0, a.a1, piece(p, 0))
    } else if number == SYS_SCHED_GETAFFINITY {
        affinity_reply(a.a1, a.a2)
    } else if number == SYS_GETCPU {
        getcpu_reply(a.a0, a.a1)
    } else if number == SYS_UNAME {
        storing(0, a.a0, system_name())
    } else if number == SYS_SYSINFO {
        storing(0, a.a0, system_info(m.now / HZ as u64, k.mem@.frames.used.len() as u64, k.mem@.frames.free() as u64))
    } else if number == SYS_PRLIMIT64 {
        prlimit_reply(a.a1, a.a2, a.a3)
    } else if number == SYS_RSEQ {
        failure(ENOSYS)
    } else {
        ReplyV { output: unknown_call(number, a), ..failure(ENOSYS) }
    }
}

fn info_call(k: &Kernel, number: u64, a: Args, m: &Machine, p: &Vec<Vec<u8>>) -> (r: Reply)
    requires
        k.wf(),
    ensures
        r@ == info_reply(*k, number, a, *m, pieces_view(p@)),
{
    if number == SYS_SET_TID_ADDRESS || number == SYS_GETPID || number == SYS_GETTID {
        let id: u64 = current_id(&k.tasks);
        Reply::plain(id)
    } else if number == SYS_FLOCK || number == SYS_MADVISE || number == SYS_GETUID || number == SYS_GETEUID
        || number == SYS_GETGID || number == SYS_GETEGID || number == SYS_PRCTL || number == SYS_SET_ROBUST_LIST
        || number == SYS_FCNTL || number == SYS_RT_SIGPROCMASK {
        Reply::plain(0)
    } else if number == SYS_CLOCK_GETTIME {
        sys_clock_gettime(a.a0, a.a1, m.now)
    } else if number == SYS_GETTIMEOFDAY {
        sys_gettimeofday(a.a0, m.now)
    } else if number == SYS_CLOCK_GETRES {
        sys_clock_getres(a.a0, a.a1)
    } else if number == SYS_SCHED_YIELD {
        let mut r = Reply::plain(0);
        r.next = Next::Yield;
        r
    } else if number == SYS_GETRANDOM {
        sys_getrandom(m.random, a.a0, a.a1, get_piece(p, 0).as_slice())
    } else if number == SYS_SCHED_GETAFFINITY {
        sys_sched_getaffinity(a.a1, a.a2)
    } else if number == SYS_GETCPU {
        sys_getcpu(a.a0, a.a1)
    } else if number == SYS_UNAME {
        sys_uname(a.a0)
    } else if number == SYS_SYSINFO {
        let (total, free) = stats(&k.mem.pmm);
        sys_sysinfo(a.a0, m.now / HZ as u64, total, free)
    } else if number == SYS_PRLIMIT64 {
        sys_prlimit64(a.a1, a.a2, a.a3)
    } else if number == SYS_RSEQ {
        Reply::error(ENOSYS)
    } else {
        let mut r = Reply::error(ENOSYS);
        r.output = unknown_text(number, a);
        r
    }
}

/// What a call does.
pub open spec fn call_done(
    before: Kernel,
    after: Kernel,
    number: u64,
    a: Args,
    m: Machine,
    p: Seq<Seq<u8>>,
    r: ReplyV,
) -> bool {
    if is_file_call(number) {
        file_call_done(before, after, number, a, m, p, r)
    } else if is_task_call(number) {
        task_call_done(before, after, number, a, m, p, r)
    } else {
        after == before && r == info_reply(before, number, a, m, p)
    }
}

fn on_files(number: u64) -> (r: bool)
    ensures
        r == is_file_call(number),
{
    number == SYS_WRITE || number == SYS_WRITEV || number == SYS_READ || number == SYS_PREAD64
        || number == SYS_LSEEK || number == SYS_CLOSE || number == SYS_OPEN || number == SYS_OPENAT
        || number == SYS_FSTAT || number == SYS_NEWFSTATAT || number == SYS_ACCESS || number == SYS_READLINK
        || number == SYS_READLINKAT || number == SYS_UNLINK || number == SYS_UNLINKAT || number == SYS_MKDIR
        || number == SYS_MKDIRAT || number == SYS_FCHDIR || number == SYS_FTRUNCATE || number == SYS_GETCWD
        || number == SYS_IOCTL
}

fn on_tasks(number: u64) -> (r: bool)
    ensures
        r == is_task_call(number),
{
    number == SYS_ARCH_PRCTL || number == SYS_BRK || number == SYS_MMAP || number == SYS_MPROTECT
        || number == SYS_MUNMAP || number == SYS_CLONE || number == SYS_CLONE3 || number == SYS_FUTEX
        || number == SYS_NANOSLEEP || number == SYS_CLOCK_NANOSLEEP || number == SYS_RT_SIGACTION
        || number == SYS_RT_SIGRETURN || number == SYS_EXIT || number == SYS_EXIT_GROUP
}

/// Answers a Linux system call. `pieces` is what [`want`] asked for.
pub fn linux_syscall_handler(k: &mut Kernel, number: u64, a: Args, m: &Machine, pieces: &Vec<Vec<u8>>) -> (r: Reply)
    requires
        old(k).wf(),
        m.stack + STACK_SIZE <= u64::MAX,
    ensures
        final(k).wf(),
        call_done(*old(k), *final(k), number, a, *m, pieces_view(pieces@), r@),
{
    if on_files(number) {
        file_call(k, number, a, m, pieces)
    } else if on_tasks(number) {
        task_call(k, number, a, m, pieces)
    } else {
        info_call(k, number, a, m, pieces)
    }
}

} // verus!
