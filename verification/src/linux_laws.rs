//! What holds of the Linux system calls on files, by their numbers: where
//! reading, writing and seeking leave a file, what they answer, and how the
//! calls agree with each other.
use crate::kernel::Kernel;
use crate::le::{le32, le64, lemma_le32_of_bytes32, bytes32, bytes64};
use crate::linux_abi::{stat_bytes, zeros, NextV, ReplyV};
use crate::linux_files::{lseek_done, read_on};
use crate::linux_syscall::{call_done, piece, Args};
use crate::linux_tasks::Machine;
use crate::task::{ExtraV, FileBacking, OpenFile, OpenV};
use crate::volume::{Image, Layout};
use vstd::prelude::*;
use vstd::string::*;

verus! {

// ---- Answers ----

/// A register that holds the number `d`: a negative one wraps around.
pub open spec fn holds(v: u64, d: int) -> bool {
    -0x8000_0000_0000_0000 <= d < 0x8000_0000_0000_0000 && v == if d >= 0 {
        d
    } else {
        d + 0x1_0000_0000_0000_0000
    }
}

/// The answer is the error with the number `e`, and nothing else happens.
pub open spec fn refused(r: ReplyV, e: int) -> bool {
    &&& r.value == 0x1_0000_0000_0000_0000 - e
    &&& r.writes.len() == 0
    &&& r.output.len() == 0
    &&& r.next == NextV::Resume
}

/// The answer is a number, and nothing else happens.
pub open spec fn answers(r: ReplyV, v: int) -> bool {
    r.value == v && r.writes.len() == 0 && r.output.len() == 0 && r.next == NextV::Resume
}

/// The answer is a number, with bytes for the program's memory at an address.
pub open spec fn delivers(r: ReplyV, v: int, at: u64, bytes: Seq<u8>) -> bool {
    &&& r.value == v
    &&& r.writes.len() == 1
    &&& r.writes[0] == (at, bytes)
    &&& r.output.len() == 0
    &&& r.next == NextV::Resume
}

// ---- Open files ----

/// The bytes of an open file that has them in memory: one that is being
/// written, or one that the kernel makes up.
pub open spec fn bytes_of(f: OpenV) -> Option<Seq<u8>> {
    match f.extra {
        Some(ExtraV::Writable(_, buf)) => Some(buf),
        Some(ExtraV::Dir(_)) => None,
        None => match f.data {
            FileBacking::Static(data) => Some(data@),
            FileBacking::Disk(_) => None,
        },
    }
}

/// How long an open file is: a directory has no bytes.
pub open spec fn size_of(f: OpenV) -> int {
    match (f.extra, f.data) {
        (Some(ExtraV::Dir(_)), _) => 0,
        (Some(ExtraV::Writable(_, buf)), _) => buf.len() as int,
        (None, FileBacking::Static(data)) => data@.len() as int,
        (None, FileBacking::Disk(file)) => file.size as int,
    }
}

/// The open file that the running task has under a number.
pub open spec fn file_at(k: Kernel, fd: u64) -> Option<OpenV> {
    k.tasks@.descriptor(fd as int)
}

/// Nothing but the open files of the running task has changed, and of those
/// none but the one under `fd`.
pub open spec fn only_file(before: Kernel, after: Kernel, fd: u64) -> bool {
    &&& after.mem == before.mem
    &&& after.regions == before.regions
    &&& after.fs.disk == before.fs.disk
    &&& after.fs.layout == before.fs.layout
    &&& after.fs.location == before.fs.location
    &&& after.fs.stack == before.fs.stack
    &&& after.tasks@.slots == before.tasks@.slots
    &&& after.tasks@.current == before.tasks@.current
    &&& after.tasks@.next_id == before.tasks@.next_id
    &&& forall|other: u64| other != fd ==> #[trigger] file_at(after, other) == file_at(before, other)
}

pub(crate) proof fn lemma_only_file(before: Kernel, after: Kernel, fd: u64, f: Option<OpenV>)
    requires
        before.wf(),
        after.mem == before.mem,
        after.regions == before.regions,
        after.fs.only_read(before.fs),
        fd < 16,
        after.tasks@.only_files(before.tasks@, before.tasks@.descriptors().update(fd as int, f)),
    ensures
        only_file(before, after, fd),
        file_at(after, fd) == f,
{
    let t = before.task().files as int;
    assert(before.tasks@.files[t].entries@.len() == 16);
    assert(before.tasks@.descriptors().len() == 16);
}

proof fn lemma_seek(before: Kernel, after: Kernel, a: Args, r: ReplyV, d: int)
    requires
        before.wf(),
        lseek_done(before, after, a.a0, a.a1, a.a2, r),
        holds(a.a1, d),
    ensures
        sought(before, after, a, r, d),
{
    if let Some(f) = file_at(before, a.a0) {
        if let Some(pos) = crate::linux_files::seek_target(f, a.a1, a.a2) {
            lemma_only_file(before, after, a.a0, Some(OpenV { pos, ..f }));
        }
    }
}

/// What seeking by `d` does.
pub open spec fn sought(before: Kernel, after: Kernel, a: Args, r: ReplyV, d: int) -> bool {
    match file_at(before, a.a0) {
        None => refused(r, 9) && after == before,
        Some(f) => {
            let to = d + if a.a2 == 0 {
                0
            } else if a.a2 == 1 {
                f.pos
            } else {
                size_of(f)
            };
            if a.a2 > 2 || to < 0 {
                refused(r, 22) && after == before
            } else {
                f.pos <= 0x7FFF_FFFF_FFFF_FFFF && size_of(f) <= 0x7FFF_FFFF_FFFF_FFFF && to <= 0x7FFF_FFFF_FFFF_FFFF
                    && to <= usize::MAX ==> {
                    &&& answers(r, to)
                    &&& file_at(after, a.a0) == Some(OpenV { pos: to, ..f })
                    &&& only_file(before, after, a.a0)
                }
            }
        },
    }
}

/// Seeking (8) goes to a place counted from the start (0), from where the
/// file is (1) or from its end (2), and answers it. A place before the start,
/// another way to count, or a number that is no open file's is refused, and
/// nothing moves.
pub proof fn law_seek(
    before: Kernel,
    after: Kernel,
    a: Args,
    m: Machine,
    p: Seq<Seq<u8>>,
    r: ReplyV,
    d: int,
)
    requires
        before.wf(),
        call_done(before, after, 8, a, m, p, r),
        holds(a.a1, d),
    ensures
        sought(before, after, a, r, d),
{
    lemma_seek(before, after, a, r, d);
}

pub proof fn lemma_le64_of_bytes64(s: Seq<u8>, i: int, v: u64)
    requires
        0 <= i,
        i + 8 <= s.len(),
        s.subrange(i, i + 8) == bytes64(v),
    ensures
        le64(s, i) == v,
{
    let b = s.subrange(i, i + 8);
    assert(s.subrange(i, i + 4) =~= bytes32((v % 0x1_0000_0000) as u32)) by {
        assert(forall|k: int| 0 <= k < 4 ==> s.subrange(i, i + 4)[k] == b[k]);
    }
    assert(s.subrange(i + 4, i + 8) =~= bytes32((v / 0x1_0000_0000) as u32)) by {
        assert(forall|k: int| 0 <= k < 4 ==> #[trigger] s.subrange(i + 4, i + 8)[k] == b[k + 4]);
    }
    lemma_le32_of_bytes32(s, i, (v % 0x1_0000_0000) as u32);
    lemma_le32_of_bytes32(s, i + 4, (v / 0x1_0000_0000) as u32);
}

/// What a program is told of a file: 144 bytes, with its number from byte 8
/// on, what kind of file it is and who may use it from byte 24 on, and its
/// size from byte 48 on.
pub open spec fn describes(bytes: Seq<u8>, size: int, number: u64, is_dir: bool) -> bool {
    &&& bytes.len() == 144
    &&& le64(bytes, 8) == number
    &&& le64(bytes, 16) == 1
    &&& le32(bytes, 24) == if is_dir {
        0x4000 + 0o755
    } else {
        0x8000 + 0o644
    }
    &&& le64(bytes, 48) == size
}

proof fn lemma_stat(size: u64, ino: u64, is_dir: bool)
    ensures
        describes(stat_bytes(size, ino, is_dir), size as int, ino, is_dir),
{
    let b = stat_bytes(size, ino, is_dir);
    let mode = if is_dir {
        0o040755u32
    } else {
        0o100644u32
    };
    assert(b.subrange(8, 16) =~= bytes64(ino));
    assert(b.subrange(16, 24) =~= bytes64(1));
    assert(b.subrange(24, 28) =~= bytes32(mode));
    assert(b.subrange(48, 56) =~= bytes64(size));
    lemma_le64_of_bytes64(b, 8, ino);
    lemma_le64_of_bytes64(b, 16, 1);
    lemma_le32_of_bytes32(b, 24, mode);
    lemma_le64_of_bytes64(b, 48, size);
}

/// Asking what an open file is (5) tells its size and whether it is a
/// directory, and changes nothing.
pub proof fn law_fstat(before: Kernel, after: Kernel, a: Args, m: Machine, p: Seq<Seq<u8>>, r: ReplyV)
    requires
        before.wf(),
        call_done(before, after, 5, a, m, p, r),
    ensures
        after == before,
        match file_at(before, a.a0) {
            None => refused(r, 9),
            Some(f) => size_of(f) <= u64::MAX ==> {
                &&& delivers(r, 0, a.a1, r.writes[0].1)
                &&& describes(r.writes[0].1, size_of(f), f.ino, f.extra matches Some(ExtraV::Dir(_)))
            },
        },
{
    if let Some(f) = file_at(before, a.a0) {
        lemma_stat(size_of(f) as u64, f.ino, f.extra matches Some(ExtraV::Dir(_)));
    }
}

/// Seeking to the end of a file answers the size that asking for it tells.
pub proof fn law_seek_end_is_size(
    before: Kernel,
    mid: Kernel,
    after: Kernel,
    fd: u64,
    at: u64,
    m: Machine,
    p: Seq<Seq<u8>>,
    sought: ReplyV,
    told: ReplyV,
)
    requires
        before.wf(),
        mid.wf(),
        file_at(before, fd) matches Some(f) && f.pos <= i64::MAX && size_of(f) <= i64::MAX && size_of(f)
            <= usize::MAX,
        call_done(before, mid, 8, (Args { a0: fd, a1: 0, a2: 2, a3: 0, a4: 0 }), m, p, sought),
        call_done(mid, after, 5, (Args { a0: fd, a1: at, a2: 0, a3: 0, a4: 0 }), m, p, told),
    ensures
        told.writes.len() == 1,
        le64(told.writes[0].1, 48) == sought.value,
        file_at(after, fd) matches Some(g) && g.pos == sought.value,
{
    law_seek(before, mid, Args { a0: fd, a1: 0, a2: 2, a3: 0, a4: 0 }, m, p, sought, 0);
    law_fstat(mid, after, Args { a0: fd, a1: at, a2: 0, a3: 0, a4: 0 }, m, p, told);
}

// ---- Reading ----

/// The bytes of `all` from `start` on, no more than `n`.
pub open spec fn part(all: Seq<u8>, start: int, n: int) -> Seq<u8> {
    if start >= all.len() {
        Seq::empty()
    } else if start + n <= all.len() {
        all.subrange(start, start + n)
    } else {
        all.subrange(start, all.len() as int)
    }
}

/// One piece that is read.
pub(crate) proof fn lemma_read_piece(f: OpenV, d: Image, layout: Option<Layout>, want: nat, at: Option<usize>)
    requires
        bytes_of(f) is Some,
        0 <= f.pos,
    ensures
        ({
            let start = match at {
                Some(o) => o as int,
                None => f.pos,
            };
            let got = part(bytes_of(f)->0, start, want as int);
            let (f1, out, n) = OpenFile::read_result(f, d, layout, zeros(want), at);
            &&& n == Ok::<int, i64>(got.len() as int)
            &&& out.take(got.len() as int) == got
            &&& f1 == OpenV {
                pos: if at is None {
                    f.pos + got.len()
                } else {
                    f.pos
                },
                ..f
            }
        }),
{
    let start = match at {
        Some(o) => o as int,
        None => f.pos,
    };
    let all = bytes_of(f)->0;
    let got = part(all, start, want as int);
    let (f1, out, n) = OpenFile::read_result(f, d, layout, zeros(want), at);
    assert(out == crate::task::copied(all, start, zeros(want)));
    assert(out.take(got.len() as int) =~= got);
}

pub(crate) proof fn lemma_parts(all: Seq<u8>, start: int, n: int, k: int)
    requires
        0 <= start,
        0 <= k <= n,
        start + k <= all.len(),
    ensures
        part(all, start, n) == part(all, start, k) + part(all, start + k, n - k),
{
    assert(part(all, start, n) =~= part(all, start, k) + part(all, start + k, n - k));
}

#[verifier::spinoff_prover]
#[verifier::rlimit(40)]
proof fn lemma_read_on(f: OpenV, d: Image, layout: Option<Layout>, len: int, offset: Option<u64>, done: Seq<u8>)
    requires
        bytes_of(f) is Some,
        done.len() <= len <= 0x7fff_f000,
        0 <= f.pos,
        offset matches Some(o) ==> o < 0x8000_0000_0000_0000 && o + len <= usize::MAX,
    ensures
        ({
            let start = match offset {
                Some(o) => o + done.len(),
                None => f.pos,
            };
            let got = part(bytes_of(f)->0, start, len - done.len());
            let (f1, data, e) = read_on(f, d, layout, len, offset, done);
            &&& e is None
            &&& data == done + got
            &&& f1 == OpenV {
                pos: if offset is None {
                    f.pos + got.len()
                } else {
                    f.pos
                },
                ..f
            }
        }),
    decreases len - done.len(),
{
    let all = bytes_of(f)->0;
    let start = match offset {
        Some(o) => o + done.len(),
        None => f.pos,
    };
    let left = len - done.len();
    let want = if left <= 4096 {
        left
    } else {
        4096
    };
    let at: Option<usize> = match offset {
        Some(o) => Some((o + done.len()) as usize),
        None => None,
    };
    lemma_read_piece(f, d, layout, want as nat, at);
    let (f1, out, n) = OpenFile::read_result(f, d, layout, zeros(want as nat), at);
    let got = part(all, start, want);
    let more = done + got;
    if got.len() == want && done.len() < more.len() < len {
        lemma_read_on(f1, d, layout, len, offset, more);
        lemma_parts(all, start, left, want);
        assert(more + part(all, start + want, left - want) =~= done + part(all, start, left));
    } else {
        assert(got =~= part(all, start, left));
    }
}

/// Reading (0) delivers what a file holds from where it stands, as much as is
/// asked for or there is, and the file then stands behind it.
#[verifier::spinoff_prover]
#[verifier::rlimit(40)]
pub proof fn law_read(before: Kernel, after: Kernel, a: Args, m: Machine, p: Seq<Seq<u8>>, r: ReplyV)
    requires
        before.wf(),
        call_done(before, after, 0, a, m, p, r),
        a.a2 <= 0x7fff_f000,
        a.a1 + a.a2 <= u64::MAX,
    ensures
        match file_at(before, a.a0) {
            None => refused(r, 9) && after == before,
            Some(f) => bytes_of(f) matches Some(all) ==> {
                let data = part(all, f.pos, a.a2 as int);
                &&& if data.len() == 0 {
                    answers(r, 0)
                } else {
                    delivers(r, data.len() as int, a.a1, data)
                }
                &&& file_at(after, a.a0) == Some(OpenV { pos: f.pos + data.len(), ..f })
                &&& only_file(before, after, a.a0)
            },
        },
{
    if let Some(f) = file_at(before, a.a0) {
        if bytes_of(f) is Some {
            lemma_read_on(f, before.fs.disk@, before.fs.layout, a.a2 as int, None, Seq::empty());
            let data = part(bytes_of(f)->0, f.pos, a.a2 as int);
            assert(Seq::<u8>::empty() + data =~= data);
        }
    }
}

/// Reading at a place (17) delivers what a file holds from there on and
/// leaves the file where it stands.
#[verifier::spinoff_prover]
#[verifier::rlimit(40)]
pub proof fn law_read_at(before: Kernel, after: Kernel, a: Args, m: Machine, p: Seq<Seq<u8>>, r: ReplyV)
    requires
        before.wf(),
        call_done(before, after, 17, a, m, p, r),
        a.a2 <= 0x7fff_f000,
        a.a1 + a.a2 <= u64::MAX,
        a.a3 + a.a2 <= usize::MAX,
    ensures
        a.a3 >= 0x8000_0000_0000_0000 ==> refused(r, 22) && after == before,
        a.a3 < 0x8000_0000_0000_0000 ==> match file_at(before, a.a0) {
            None => refused(r, 9) && after == before,
            Some(f) => bytes_of(f) matches Some(all) ==> {
                let data = part(all, a.a3 as int, a.a2 as int);
                &&& if data.len() == 0 {
                    answers(r, 0)
                } else {
                    delivers(r, data.len() as int, a.a1, data)
                }
                &&& file_at(after, a.a0) == Some(f)
                &&& only_file(before, after, a.a0)
            },
        },
{
    if let Some(f) = file_at(before, a.a0) {
        if bytes_of(f) is Some && a.a3 < 0x8000_0000_0000_0000 {
            lemma_read_on(f, before.fs.disk@, before.fs.layout, a.a2 as int, Some(a.a3), Seq::empty());
            let data = part(bytes_of(f)->0, a.a3 as int, a.a2 as int);
            assert(Seq::<u8>::empty() + data =~= data);
        }
    }
}

// ---- Writing ----

/// The contents of a file after `bytes` have been written from `start` on: as
/// long as it takes, with `bytes` there, zeros in a gap before them, and what
/// it held everywhere else.
pub open spec fn contents_after(was: Seq<u8>, start: int, bytes: Seq<u8>, now: Seq<u8>) -> bool {
    let end = start + bytes.len();
    &&& now.len() == if was.len() < end {
        end
    } else {
        was.len() as int
    }
    &&& forall|i: int| start <= i < end ==> #[trigger] now[i] == bytes[i - start]
    &&& forall|i: int| 0 <= i < was.len() && !(start <= i < end) ==> #[trigger] now[i] == was[i]
    &&& forall|i: int| was.len() <= i < start ==> #[trigger] now[i] == 0
}

/// Writing (1) to one of the first three files shows the text on the console.
/// A file that is being written has the bytes where it stood, and then stands
/// behind them. Any other file cannot be written.
#[verifier::spinoff_prover]
#[verifier::rlimit(40)]
pub proof fn law_write(before: Kernel, after: Kernel, a: Args, m: Machine, p: Seq<Seq<u8>>, r: ReplyV)
    requires
        before.wf(),
        call_done(before, after, 1, a, m, p, r),
    ensures
        ({
            let bytes = piece(p, 0);
            if a.a0 <= 2 {
                &&& after == before
                &&& r.value == bytes.len() as u64
                &&& r.writes.len() == 0
                &&& r.next == NextV::Resume
                &&& bytes.len() > 0 && vstd::utf8::valid_utf8(bytes) ==> r.output == bytes
                &&& bytes.len() == 0 ==> r.output.len() == 0
            } else if bytes.len() == 0 {
                after == before && answers(r, 0)
            } else {
                match file_at(before, a.a0) {
                    None => after == before && refused(r, 9),
                    Some(f) => match f.extra {
                        Some(ExtraV::Writable(path, was)) => if f.pos + bytes.len() > usize::MAX {
                            after == before && refused(r, 27)
                        } else {
                            &&& answers(r, bytes.len() as int)
                            &&& only_file(before, after, a.a0)
                            &&& file_at(after, a.a0) matches Some(g) && g.pos == f.pos + bytes.len() && (g.extra matches Some(
                                ExtraV::Writable(same, now),
                            ) && same == path && contents_after(was, f.pos, bytes, now))
                        },
                        _ => f.pos + bytes.len() <= usize::MAX ==> refused(r, 9) && only_file(before, after, a.a0)
                            && file_at(after, a.a0) == Some(f),
                    },
                }
            }
        }),
{
    let bytes = piece(p, 0);
    if a.a0 > 2 && bytes.len() > 0 {
        lemma_write(before, after, a.a0, bytes, r);
    }
}

#[verifier::spinoff_prover]
#[verifier::rlimit(40)]
proof fn lemma_write(before: Kernel, after: Kernel, fd: u64, bytes: Seq<u8>, r: ReplyV)
    requires
        before.wf(),
        fd > 2,
        bytes.len() > 0,
        crate::linux_files::write_done(before, after, fd, bytes, r),
    ensures
        match file_at(before, fd) {
            None => after == before && refused(r, 9),
            Some(f) => match f.extra {
                Some(ExtraV::Writable(path, was)) => if f.pos + bytes.len() > usize::MAX {
                    after == before && refused(r, 27)
                } else {
                    &&& answers(r, bytes.len() as int)
                    &&& only_file(before, after, fd)
                    &&& file_at(after, fd) matches Some(g) && g.pos == f.pos + bytes.len() && (g.extra matches Some(
                        ExtraV::Writable(same, now),
                    ) && same == path && contents_after(was, f.pos, bytes, now))
                },
                _ => f.pos + bytes.len() <= usize::MAX ==> refused(r, 9) && only_file(before, after, fd) && file_at(
                    after,
                    fd,
                ) == Some(f),
            },
        },
{
    if let Some(f) = file_at(before, fd) {
        if f.pos + bytes.len() <= usize::MAX {
            lemma_only_file(before, after, fd, Some(OpenFile::write_result(f, bytes, None).0));
        }
    }
}

/// What has been written to a file is read back from where it was written:
/// after a write, a seek back to where the file stood and a read of as many
/// bytes deliver the bytes.
#[verifier::spinoff_prover]
#[verifier::rlimit(80)]
pub proof fn law_write_seek_read(
    k0: Kernel,
    k1: Kernel,
    k2: Kernel,
    k3: Kernel,
    fd: u64,
    at: u64,
    m: Machine,
    bytes: Seq<u8>,
    p: Seq<Seq<u8>>,
    wrote: ReplyV,
    went: ReplyV,
    got: ReplyV,
)
    requires
        k0.wf(),
        k1.wf(),
        k2.wf(),
        fd > 2,
        0 < bytes.len() <= 0x7fff_f000,
        at + bytes.len() <= u64::MAX,
        file_at(k0, fd) matches Some(f) && f.pos + bytes.len() <= usize::MAX && f.pos + bytes.len() <= i64::MAX && (
        f.extra matches Some(ExtraV::Writable(_, was)) && was.len() <= i64::MAX),
        call_done(
            k0,
            k1,
            1,
            (Args { a0: fd, a1: at, a2: bytes.len() as u64, a3: 0, a4: 0 }),
            m,
            seq![bytes],
            wrote,
        ),
        call_done(
            k1,
            k2,
            8,
            (Args { a0: fd, a1: (file_at(k0, fd)->0).pos as u64, a2: 0, a3: 0, a4: 0 }),
            m,
            p,
            went,
        ),
        call_done(k2, k3, 0, (Args { a0: fd, a1: at, a2: bytes.len() as u64, a3: 0, a4: 0 }), m, p, got),
    ensures
        delivers(got, bytes.len() as int, at, bytes),
{
    let f = file_at(k0, fd)->0;
    let a0 = Args { a0: fd, a1: at, a2: bytes.len() as u64, a3: 0, a4: 0 };
    lemma_then_written(k0, k1, a0, m, bytes, wrote);
    let g = file_at(k1, fd)->0;
    lemma_then_back(k1, k2, fd, f.pos, m, p, went);
    let now = bytes_of(g)->0;
    assert(part(now, f.pos, bytes.len() as int) =~= bytes);
    lemma_then_got(k2, k3, a0, m, p, got);
}

proof fn lemma_then_written(k0: Kernel, k1: Kernel, a: Args, m: Machine, bytes: Seq<u8>, r: ReplyV)
    requires
        k0.wf(),
        a.a0 > 2,
        bytes.len() > 0,
        file_at(k0, a.a0) matches Some(f) && f.pos + bytes.len() <= usize::MAX && f.extra matches Some(
            ExtraV::Writable(_, _),
        ),
        call_done(k0, k1, 1, a, m, seq![bytes], r),
    ensures
        ({
            let f = file_at(k0, a.a0)->0;
            &&& file_at(k1, a.a0) matches Some(g)
            &&& g.pos == f.pos + bytes.len()
            &&& f.extra matches Some(ExtraV::Writable(_, was))
            &&& g.extra matches Some(ExtraV::Writable(_, now))
            &&& contents_after(was, f.pos, bytes, now)
        }),
{
    law_write(k0, k1, a, m, seq![bytes], r);
}

proof fn lemma_then_back(k1: Kernel, k2: Kernel, fd: u64, pos: int, m: Machine, p: Seq<Seq<u8>>, r: ReplyV)
    requires
        k1.wf(),
        0 <= pos <= i64::MAX,
        pos <= usize::MAX,
        file_at(k1, fd) matches Some(g) && g.pos <= i64::MAX && size_of(g) <= i64::MAX,
        call_done(k1, k2, 8, (Args { a0: fd, a1: pos as u64, a2: 0, a3: 0, a4: 0 }), m, p, r),
    ensures
        file_at(k2, fd) == Some(OpenV { pos, ..file_at(k1, fd)->0 }),
{
    law_seek(k1, k2, Args { a0: fd, a1: pos as u64, a2: 0, a3: 0, a4: 0 }, m, p, r, pos);
}

proof fn lemma_then_got(k2: Kernel, k3: Kernel, a: Args, m: Machine, p: Seq<Seq<u8>>, r: ReplyV)
    requires
        k2.wf(),
        a.a2 <= 0x7fff_f000,
        a.a1 + a.a2 <= u64::MAX,
        call_done(k2, k3, 0, a, m, p, r),
        file_at(k2, a.a0) matches Some(f) && bytes_of(f) is Some,
        part(bytes_of(file_at(k2, a.a0)->0)->0, (file_at(k2, a.a0)->0).pos, a.a2 as int).len() > 0,
    ensures
        ({
            let f = file_at(k2, a.a0)->0;
            let data = part(bytes_of(f)->0, f.pos, a.a2 as int);
            delivers(r, data.len() as int, a.a1, data)
        }),
{
    law_read(k2, k3, a, m, p, r);
}

/// Cutting a file that is being written to a size (77) keeps what it held up
/// to there and adds zeros up to the size if it was shorter; it stands where
/// it stood. A file that is not being written is left as it is.
pub proof fn law_truncate(before: Kernel, after: Kernel, a: Args, m: Machine, p: Seq<Seq<u8>>, r: ReplyV)
    requires
        before.wf(),
        call_done(before, after, 77, a, m, p, r),
    ensures
        match file_at(before, a.a0) {
            None => after == before && refused(r, 9),
            Some(f) => match f.extra {
                Some(ExtraV::Writable(path, was)) => if a.a1 > usize::MAX {
                    refused(r, 27) && after.tasks@ == before.tasks@
                } else {
                    &&& answers(r, 0)
                    &&& only_file(before, after, a.a0)
                    &&& file_at(after, a.a0) matches Some(g) && g.pos == f.pos && (g.extra matches Some(
                        ExtraV::Writable(same, now),
                    ) && same == path && now.len() == a.a1 && forall|i: int|
                        0 <= i < now.len() ==> #[trigger] now[i] == if i < was.len() {
                            was[i]
                        } else {
                            0
                        })
                },
                _ => a.a1 <= usize::MAX ==> refused(r, 22) && file_at(after, a.a0) == Some(f),
            },
        },
{
    lemma_truncate(before, after, a.a0, a.a1, r);
}

#[verifier::spinoff_prover]
#[verifier::rlimit(40)]
proof fn lemma_truncate(before: Kernel, after: Kernel, fd: u64, size: u64, r: ReplyV)
    requires
        before.wf(),
        crate::linux_files::ftruncate_done(before, after, fd, size, r),
    ensures
        match file_at(before, fd) {
            None => after == before && refused(r, 9),
            Some(f) => match f.extra {
                Some(ExtraV::Writable(path, was)) => if size > usize::MAX {
                    refused(r, 27) && after.tasks@ == before.tasks@
                } else {
                    &&& answers(r, 0)
                    &&& only_file(before, after, fd)
                    &&& file_at(after, fd) matches Some(g) && g.pos == f.pos && (g.extra matches Some(
                        ExtraV::Writable(same, now),
                    ) && same == path && now.len() == size && forall|i: int|
                        0 <= i < now.len() ==> #[trigger] now[i] == if i < was.len() {
                            was[i]
                        } else {
                            0
                        })
                },
                _ => size <= usize::MAX ==> refused(r, 22) && file_at(after, fd) == Some(f),
            },
        },
{
    if let Some(f) = file_at(before, fd) {
        if let Some(ExtraV::Writable(path, was)) = f.extra {
            if size <= usize::MAX {
                let now = crate::task::resized(was, size as nat);
                lemma_only_file(
                    before,
                    after,
                    fd,
                    Some(OpenV { extra: Some(ExtraV::Writable(path, now)), ..f }),
                );
            }
        }
    }
}

// ---- Opening and closing ----

/// Whether the bytes at an address that a program gave start with a path and
/// a zero.
pub open spec fn names(b: Seq<u8>, path: Seq<u8>) -> bool {
    &&& path.len() < 256
    &&& path.len() < b.len()
    &&& b.take(path.len() as int) == path
    &&& b[path.len() as int] == 0
    &&& forall|i: int| 0 <= i < path.len() ==> path[i] != 0
    &&& vstd::utf8::valid_utf8(path)
}

proof fn lemma_named(b: Seq<u8>, path: Seq<u8>)
    requires
        names(b, path),
    ensures
        crate::linux_abi::c_string(b) == Some(path),
{
    crate::text::lemma_first_of(b, 0, 0);
    let n = path.len() as int;
    assert forall|i: int| 0 <= i < n implies b[i] != 0 by {
        assert(b[i] == b.take(n)[i]);
    }
}

/// The files that the kernel makes up.
pub open spec fn made_up(path: Seq<u8>) -> bool {
    ||| path == "/proc/stat".spec_bytes()
    ||| path == "/sys/devices/system/cpu/possible".spec_bytes()
    ||| path == "/sys/devices/system/cpu/online".spec_bytes()
    ||| path == "/sys/devices/system/cpu/present".spec_bytes()
}

/// `fd` is the lowest number from three on that no open file had, and is the
/// number of `f` now, which stands at its start.
pub open spec fn newly_open(before: Kernel, after: Kernel, r: ReplyV, f: OpenV) -> bool {
    &&& answers(r, r.value as int)
    &&& 3 <= r.value < 16
    &&& file_at(before, r.value) is None
    &&& forall|j: u64| 3 <= j < r.value ==> #[trigger] file_at(before, j) is Some
    &&& file_at(after, r.value) == Some(f)
    &&& f.pos == 0
    &&& only_file(before, after, r.value)
}

/// No number is left for another open file, or opening failed: nothing has
/// changed.
pub open spec fn not_opened(before: Kernel, after: Kernel, r: ReplyV, e: int) -> bool {
    refused(r, e) && after.tasks@ == before.tasks@ && after.fs.disk == before.fs.disk && after.mem == before.mem
}

pub open spec fn all_open(k: Kernel) -> bool {
    forall|j: u64| 3 <= j < 16 ==> #[trigger] file_at(k, j) is Some
}

proof fn lemma_free_number(k: Kernel, from: int)
    requires
        k.wf(),
        3 <= from <= 16,
        forall|j: u64| 3 <= j < from ==> #[trigger] file_at(k, j) is Some,
    ensures
        match crate::task::free_descriptor(k.tasks@.descriptors(), from) {
            None => all_open(k),
            Some(fd) => from <= fd < 16 && file_at(k, fd as u64) is None && forall|j: u64|
                3 <= j < fd ==> #[trigger] file_at(k, j) is Some,
        },
    decreases 16 - from,
{
    let t = k.task().files as int;
    assert(k.tasks@.files[t].entries@.len() == 16);
    if from < 16 {
        assert(file_at(k, from as u64) == k.tasks@.descriptors()[from]);
        if k.tasks@.descriptors()[from] is Some {
            lemma_free_number(k, from + 1);
        }
    }
}

/// What opening a path does, by bits of `flags`: with one of the lowest two
/// it is for writing, with 0x40 a file that is not there is made, with
/// 0x10000 it must be a directory.
pub open spec fn opened_for(before: Kernel, after: Kernel, path: Seq<u8>, flags: u64, r: ReplyV) -> bool {
    let v = before.fs.volume();
    let at = before.fs.place();
    let writing = flags & 3 != 0;
    match crate::volume::status(v, at, path) {
        Err(_) => if flags & 0x40 == 0 {
            not_opened(before, after, r, 2)
        } else {
            not_opened(before, after, r, 9) && all_open(before) || exists|f: OpenV|
                #[trigger] newly_open(before, after, r, f) && f.extra == Some(ExtraV::Writable(path, Seq::empty()))
        },
        Ok((true, _)) => if writing {
            not_opened(before, after, r, 21)
        } else {
            not_opened(before, after, r, 9) && all_open(before) || exists|f: OpenV|
                #[trigger] newly_open(before, after, r, f) && f.extra == Some(ExtraV::Dir(path))
        },
        Ok((false, _)) => if flags & 0x1_0000 != 0 {
            not_opened(before, after, r, 20)
        } else if writing {
            match crate::volume::content(v, at, path) {
                Err(_) => not_opened(before, after, r, 2),
                Ok(bytes) => not_opened(before, after, r, 9) && all_open(before) || exists|f: OpenV|
                    #[trigger] newly_open(before, after, r, f) && f.extra == Some(ExtraV::Writable(path, bytes)),
            }
        } else {
            match crate::volume::file_entry(v, at, path) {
                Err(_) => not_opened(before, after, r, 2),
                Ok(e) => not_opened(before, after, r, 9) && all_open(before) || exists|f: OpenV|
                    #[trigger] newly_open(before, after, r, f) && f.extra is None && (f.data matches FileBacking::Disk(x)
                        && x.first == e.cluster && x.size == e.size && x.cursor_index == 0 && x.cursor_cluster
                        == e.cluster),
            }
        },
    }
}

#[verifier::spinoff_prover]
#[verifier::rlimit(60)]
proof fn lemma_open(before: Kernel, after: Kernel, path: Seq<u8>, flags: u64, r: ReplyV)
    requires
        before.wf(),
        !made_up(path),
        crate::linux_files::open_done(before, after, Some(path), flags, r),
    ensures
        opened_for(before, after, path, flags, r),
{
    lemma_free_number(before, 3);
    let v = before.fs.volume();
    let at = before.fs.place();
    assert(crate::linux_files::synthetic(path) is None);
    if let Ok(o) = crate::linux_files::open_result(v, at, path, flags) {
        if let Some(fd) = crate::task::free_descriptor(before.tasks@.descriptors(), 3) {
            let f = after.tasks@.descriptors()[fd];
            lemma_only_file(before, after, fd as u64, f);
            assert(newly_open(before, after, r, f->0));
        }
    }
}

/// Opening a path (2, or 257 with the path as the second argument).
pub proof fn law_open(
    before: Kernel,
    after: Kernel,
    number: u64,
    a: Args,
    m: Machine,
    p: Seq<Seq<u8>>,
    r: ReplyV,
    path: Seq<u8>,
)
    requires
        before.wf(),
        number == 2 || number == 257,
        call_done(before, after, number, a, m, p, r),
        names(piece(p, 0), path),
        !made_up(path),
    ensures
        opened_for(
            before,
            after,
            path,
            if number == 2 {
                a.a1
            } else {
                a.a2
            },
            r,
        ),
{
    lemma_named(piece(p, 0), path);
    lemma_open(
        before,
        after,
        path,
        if number == 2 {
            a.a1
        } else {
            a.a2
        },
        r,
    );
}

/// A path that a call takes is asked for where the call has it: calls with a
/// directory before the path (257, 258, 262, 263, 267) have it second.
pub proof fn law_paths_are_asked_for(number: u64, a: Args, mask: u64)
    ensures
        number == 2 || number == 21 || number == 83 || number == 87 || number == 89 && a.a2 != 0
            ==> crate::linux_syscall::wanted(number, a, mask) == crate::linux_syscall::WantV::Text(a.a0),
        number == 257 || number == 258 || number == 262 || number == 263 || number == 267 && a.a3 != 0
            ==> crate::linux_syscall::wanted(number, a, mask) == crate::linux_syscall::WantV::Text(a.a1),
        number == 1 && 0 < a.a2 <= 4096 ==> crate::linux_syscall::wanted(number, a, mask)
            == crate::linux_syscall::WantV::Ranges(seq![(a.a1, a.a2)]),
{
}

/// Closing (3) frees the number. A file that was being written is then on the
/// disk with its contents, if its directory is in order and it could be kept.
pub proof fn law_close(before: Kernel, after: Kernel, a: Args, m: Machine, p: Seq<Seq<u8>>, r: ReplyV)
    requires
        before.wf(),
        call_done(before, after, 3, a, m, p, r),
    ensures
        match file_at(before, a.a0) {
            None => after == before && refused(r, 9),
            Some(f) => {
                &&& answers(r, 0)
                &&& file_at(after, a.a0) is None
                &&& forall|other: u64| other != a.a0 ==> #[trigger] file_at(after, other) == file_at(before, other)
                &&& after.mem == before.mem
                &&& after.regions == before.regions
                &&& after.tasks@.slots == before.tasks@.slots
                &&& match f.extra {
                    Some(ExtraV::Writable(path, buf)) => {
                        let v = before.fs.volume();
                        let at = before.fs.place();
                        v.layout matches Some(l) && crate::fat16_dirs::in_order_for(v.image, l, at, path) && buf.len()
                            <= 0xFFFF_FFFF && crate::volume::writable(v, at, path, buf) && crate::volume::saved(
                            v,
                            at,
                            path,
                            buf,
                        ).1 is Ok ==> {
                            &&& crate::volume::content(after.fs.volume(), at, path) == Ok::<Seq<u8>, &'static str>(buf)
                            &&& after.fs.place() == at
                        }
                    },
                    _ => after.fs.disk == before.fs.disk,
                }
            },
        },
{
    lemma_close(before, after, a.a0, r);
}

#[verifier::spinoff_prover]
#[verifier::rlimit(60)]
proof fn lemma_close(before: Kernel, after: Kernel, fd: u64, r: ReplyV)
    requires
        before.wf(),
        crate::linux_files::close_done(before, after, fd, r),
    ensures
        match file_at(before, fd) {
            None => after == before && refused(r, 9),
            Some(f) => {
                &&& answers(r, 0)
                &&& file_at(after, fd) is None
                &&& forall|other: u64| other != fd ==> #[trigger] file_at(after, other) == file_at(before, other)
                &&& after.mem == before.mem
                &&& after.regions == before.regions
                &&& after.tasks@.slots == before.tasks@.slots
                &&& match f.extra {
                    Some(ExtraV::Writable(path, buf)) => {
                        let v = before.fs.volume();
                        let at = before.fs.place();
                        v.layout matches Some(l) && crate::fat16_dirs::in_order_for(v.image, l, at, path) && buf.len()
                            <= 0xFFFF_FFFF && crate::volume::writable(v, at, path, buf) && crate::volume::saved(
                            v,
                            at,
                            path,
                            buf,
                        ).1 is Ok ==> {
                            &&& crate::volume::content(after.fs.volume(), at, path) == Ok::<Seq<u8>, &'static str>(buf)
                            &&& after.fs.place() == at
                        }
                    },
                    _ => after.fs.disk == before.fs.disk,
                }
            },
        },
{
    if let Some(f) = file_at(before, fd) {
        let t = before.task().files as int;
        assert(before.tasks@.files[t].entries@.len() == 16);
        if let Some(ExtraV::Writable(path, buf)) = f.extra {
            let v = before.fs.volume();
            let at = before.fs.place();
            if let Some(l) = v.layout {
                if crate::fat16_dirs::in_order_for(v.image, l, at, path) && buf.len() <= 0xFFFF_FFFF
                    && crate::volume::writable(v, at, path, buf) && crate::volume::saved(v, at, path, buf).1 is Ok {
                    crate::fat16_dirs::law_written_file(v.image, l, at, path, buf);
                }
            }
        }
    }
}

// ---- Paths ----

/// Asking what a path is (262) tells whether it is a directory and its size;
/// asking whether it is there (21) answers zero. A path that is not there is
/// refused. Nothing but the count of sectors read changes.
#[verifier::spinoff_prover]
#[verifier::rlimit(60)]
pub proof fn law_stat_path(
    before: Kernel,
    after: Kernel,
    number: u64,
    a: Args,
    m: Machine,
    p: Seq<Seq<u8>>,
    r: ReplyV,
    path: Seq<u8>,
)
    requires
        before.wf(),
        number == 262 || number == 21,
        call_done(before, after, number, a, m, p, r),
        names(piece(p, 0), path),
        !made_up(path),
    ensures
        after.tasks == before.tasks,
        after.mem == before.mem,
        after.fs.disk == before.fs.disk,
        match crate::volume::status(before.fs.volume(), before.fs.place(), path) {
            Err(_) => refused(r, 2),
            Ok((is_dir, size)) => if number == 21 {
                answers(r, 0)
            } else {
                &&& delivers(r, 0, a.a2, r.writes[0].1)
                &&& describes(r.writes[0].1, size as int, le64(r.writes[0].1, 8), is_dir)
            },
        },
{
    lemma_named(piece(p, 0), path);
    assert(crate::linux_files::synthetic(path) is None);
    if let Ok((is_dir, size)) = crate::volume::status(before.fs.volume(), before.fs.place(), path) {
        lemma_stat(size as u64, crate::task::path_hash(path), is_dir);
    }
}

/// Removing a path (87, 263) answers zero if its file was removed, which the
/// volume then shows, and that there is no such file if not.
pub proof fn law_unlink(
    before: Kernel,
    after: Kernel,
    number: u64,
    a: Args,
    m: Machine,
    p: Seq<Seq<u8>>,
    r: ReplyV,
    path: Seq<u8>,
)
    requires
        before.wf(),
        number == 87 || number == 263,
        call_done(before, after, number, a, m, p, r),
        names(piece(p, 0), path),
    ensures
        after.tasks == before.tasks,
        after.mem == before.mem,
        answers(r, 0) || refused(r, 2),
        answers(r, 0) ==> crate::volume::removed(before.fs.volume(), before.fs.place(), path).1 is Ok && after.fs.disk@
            == crate::volume::removed(before.fs.volume(), before.fs.place(), path).0,
        crate::volume::writable(before.fs.volume(), before.fs.place(), path, Seq::empty()) && crate::volume::removed(
            before.fs.volume(),
            before.fs.place(),
            path,
        ).1 is Ok ==> answers(r, 0),
{
    lemma_named(piece(p, 0), path);
}

/// The path of the current directory (79) is told with a zero behind it, and
/// how long that is; it leads back to the directory from anywhere. A place
/// with too little room is refused.
#[verifier::spinoff_prover]
#[verifier::rlimit(60)]
pub proof fn law_getcwd(
    before: Kernel,
    after: Kernel,
    a: Args,
    m: Machine,
    p: Seq<Seq<u8>>,
    r: ReplyV,
    from: crate::volume::Place,
)
    requires
        before.wf(),
        call_done(before, after, 79, a, m, p, r),
        r.writes.len() > 0,
        forall|i: int|
            0 <= i < before.fs.place().stack.len() ==> #[trigger] crate::fat16_files::stands(
                before.fs.volume(),
                before.fs.place().stack,
                i,
            ),
    ensures
        after == before,
        r.writes.len() == 1,
        r.writes[0].0 == a.a0,
        r.value == r.writes[0].1.len(),
        r.value <= a.a1,
        r.writes[0].1.last() == 0,
        crate::volume::walked(before.fs.volume(), from, r.writes[0].1.drop_last()) == Ok::<
            crate::volume::Place,
            &'static str,
        >(before.fs.place()),
{
    let path = crate::linux_files::current_path(before.fs);
    assert(path.push(0).drop_last() =~= path);
    crate::fat16_files::law_printed_path_leads_back(before.fs.volume(), before.fs.place(), from);
    assert(path == crate::commands::cwd_text(before.fs.place()));
}

/// Where the link to the running program leads (89): as much of its path as
/// there is room for, and how much that is.
#[verifier::spinoff_prover]
#[verifier::rlimit(60)]
pub proof fn law_readlink(before: Kernel, after: Kernel, a: Args, m: Machine, p: Seq<Seq<u8>>, r: ReplyV)
    requires
        before.wf(),
        call_done(before, after, 89, a, m, p, r),
        names(piece(p, 0), "/proc/self/exe".spec_bytes()),
        before.task().exe_path@.len() > 0,
        a.a2 > 0,
    ensures
        ({
            let exe = before.task().exe_path@;
            &&& r.writes.len() == 1
            &&& r.writes[0].0 == a.a1
            &&& r.value == r.writes[0].1.len()
            &&& r.writes[0].1.is_prefix_of(exe)
            &&& r.value == a.a2 || r.value == exe.len()
            &&& r.value <= a.a2
        }),
{
    let path = "/proc/self/exe".spec_bytes();
    lemma_named(piece(p, 0), path);
    lemma_exe_path();
    lemma_readlink(before, path, a.a1, a.a2, r);
}

proof fn lemma_exe_path()
    ensures
        "/proc/self/exe".spec_bytes().len() == 14,
{
    reveal_strlit("/proc/self/exe");
    is_ascii_spec_bytes("/proc/self/exe");
}

proof fn lemma_readlink(k: Kernel, path: Seq<u8>, at: u64, size: u64, r: ReplyV)
    requires
        size > 0,
        path.len() > 0,
        path == "/proc/self/exe".spec_bytes(),
        k.task().exe_path@.len() > 0,
        r == crate::linux_files::readlink_reply(k, Some(path), at, size),
    ensures
        r.writes.len() == 1,
        r.writes[0].0 == at,
        r.value == r.writes[0].1.len(),
        r.writes[0].1.is_prefix_of(k.task().exe_path@),
        r.value == size || r.value == k.task().exe_path@.len(),
        r.value <= size,
{
    let exe = k.task().exe_path@;
    let n = if exe.len() <= size {
        exe.len() as int
    } else {
        size as int
    };
    assert(exe.take(n) =~= exe.subrange(0, n));
}

} // verus!
