//! The Linux system calls on files.
use crate::fat16::{
    can_write, change_dir, cwd_path_string, open_file, read_file, remove_file, stack_view, stat_path, write_file, Fs,
};
use crate::kernel::Kernel;
use crate::linux_abi::{
    answer, console_text, failure, stat_bytes, stat_of, store, storing, write_bytes_to_console, zeros, push_zeros,
    signed, Reply, ReplyV, EBADF, EFAULT, EFBIG, EINVAL, EISDIR, ENAMETOOLONG, ENOENT, ENOTDIR, ERANGE, MAX_IO_LEN,
};
use crate::task::{
    current_exe_path, free_descriptor, hash_path, install_file, lemma_files_twice, open_file_dir_path, open_file_len,
    path_hash, read_open_file, resized, set_position, start_of, take_file, truncate_open_file, write_open_file,
    ExtraV, FileBacking, OpenExtra, OpenFile, OpenV, MAX_OPEN_FILES,
};
use crate::text::same_bytes;
use crate::volume::{
    content, file_entry, min, opened, path_text, removed, saved, status, walked, writable, File, Image, Layout, Place,
    Volume,
};
use vstd::prelude::*;
use vstd::slice::{slice_subrange, slice_to_vec};
use vstd::string::*;

verus! {

// ---- Writing ----

/// What a write to a file does: to one of the first three it goes to the
/// console.
pub open spec fn write_done(before: Kernel, after: Kernel, fd: u64, bytes: Seq<u8>, r: ReplyV) -> bool {
    if fd <= 2 {
        after == before && r == (ReplyV {
            output: if bytes.len() > 0 {
                console_text(bytes)
            } else {
                Seq::empty()
            },
            ..answer(bytes.len() as u64)
        })
    } else if bytes.len() == 0 {
        after == before && r == answer(0)
    } else {
        match before.tasks@.descriptor(fd as int) {
            None => after == before && r == failure(EBADF),
            Some(f) => if start_of(f, None) + bytes.len() > usize::MAX {
                after == before && r == failure(EFBIG)
            } else {
                let (f1, n) = OpenFile::write_result(f, bytes, None);
                &&& after.only_tasks(before)
                &&& after.tasks@.only_files(
                    before.tasks@,
                    before.tasks@.descriptors().update(fd as int, Some(f1)),
                )
                &&& r == match n {
                    Ok(k) => answer(k as u64),
                    Err(e) => failure(e),
                }
            },
        }
    }
}

pub(crate) fn sys_write(k: &mut Kernel, fd: u64, bytes: &[u8]) -> (r: Reply)
    requires
        old(k).wf(),
    ensures
        final(k).wf(),
        write_done(*old(k), *final(k), fd, bytes@, r@),
{
    if fd <= 2 {
        let mut r = Reply::plain(bytes.len() as u64);
        if bytes.len() > 0 {
            let mut out: Vec<u8> = Vec::new();
            write_bytes_to_console(&mut out, bytes);
            assert(out@ =~= console_text(bytes@));
            r.output = out;
        }
        return r;
    }
    if bytes.len() == 0 {
        return Reply::plain(0);
    }
    if fd >= MAX_OPEN_FILES as u64 {
        return Reply::error(EBADF);
    }
    match position_of(k, fd as usize) {
        None => {
            return Reply::error(EBADF);
        },
        Some(pos) => {
            if pos.checked_add(bytes.len()).is_none() {
                return Reply::error(EFBIG);
            }
        },
    }
    match write_open_file(&mut k.tasks, fd as usize, bytes, None) {
        Ok(n) => Reply::plain(n as u64),
        Err(e) => Reply::error(e),
    }
}

/// Where the next read or write of an open file starts.
fn position_of(k: &Kernel, fd: usize) -> (r: Option<usize>)
    requires
        k.wf(),
        fd < MAX_OPEN_FILES,
    ensures
        match k.tasks@.descriptor(fd as int) {
            Some(f) => r matches Some(p) && p == f.pos,
            None => r is None,
        },
{
    let t: usize = k.tasks.table_of_running();
    match &k.tasks.files[t].entries[fd] {
        Some(f) => Some(f.pos),
        None => None,
    }
}

// ---- Reading ----

/// Reads on in a file, in pieces, until `len` bytes have been read or the file
/// has no more; with what has been read and the error, if one stopped it.
pub open spec fn read_on(
    f: OpenV,
    d: Image,
    layout: Option<Layout>,
    len: int,
    offset: Option<u64>,
    done: Seq<u8>,
) -> (OpenV, Seq<u8>, Option<i64>)
    decreases len - done.len(),
{
    let want = min(len - done.len(), MAX_IO_LEN as int);
    let at: Option<usize> = match offset {
        Some(start) => Some((start + done.len()) as usize),
        None => None,
    };
    let (f1, out, n) = OpenFile::read_result(f, d, layout, zeros(want as nat), at);
    match n {
        Err(e) => (f1, done, Some(e)),
        Ok(k) => {
            let more = done + out.take(k);
            if k == want && done.len() < more.len() < len {
                read_on(f1, d, layout, len, offset, more)
            } else {
                (f1, more, None)
            }
        },
    }
}

/// The answer to a read: how many bytes, and the bytes.
pub open spec fn read_reply(buf_ptr: u64, data: Seq<u8>, e: Option<i64>) -> ReplyV {
    match e {
        Some(x) if data.len() == 0 => failure(x),
        _ => ReplyV {
            writes: if data.len() == 0 {
                Seq::empty()
            } else {
                seq![(buf_ptr, data)]
            },
            ..answer(data.len() as u64)
        },
    }
}

/// What a read does: nothing beyond two gibibytes, less a page, at once.
pub open spec fn read_done(
    before: Kernel,
    after: Kernel,
    fd: u64,
    buf_ptr: u64,
    len: u64,
    offset: Option<u64>,
    r: ReplyV,
) -> bool {
    let n = min(len as int, 0x7fff_f000);
    if buf_ptr + n > u64::MAX {
        after == before && r == failure(EINVAL)
    } else {
        match before.tasks@.descriptor(fd as int) {
            None => after == before && r == failure(EBADF),
            Some(f) => {
                let (f1, data, e) = read_on(f, before.fs.disk@, before.fs.layout, n, offset, Seq::empty());
                &&& after.mem == before.mem
                &&& after.regions == before.regions
                &&& after.fs.only_read(before.fs)
                &&& after.tasks@.only_files(
                    before.tasks@,
                    before.tasks@.descriptors().update(fd as int, Some(f1)),
                )
                &&& r == read_reply(buf_ptr, data, e)
            },
        }
    }
}

fn zero_buffer(n: usize) -> (r: Vec<u8>)
    ensures
        r@ == zeros(n as nat),
{
    let mut out: Vec<u8> = Vec::new();
    push_zeros(&mut out, n);
    assert(out@ =~= zeros(n as nat));
    out
}

#[verifier::spinoff_prover]
#[verifier::rlimit(40)]
pub(crate) fn read_file_chunks(k: &mut Kernel, fd: u64, buf_ptr: u64, len: u64, offset: Option<u64>) -> (r: Reply)
    requires
        old(k).wf(),
        offset matches Some(o) ==> o < 0x8000_0000_0000_0000,
    ensures
        final(k).wf(),
        read_done(*old(k), *final(k), fd, buf_ptr, len, offset, r@),
{
    let n: usize = if len <= 0x7fff_f000 {
        len as usize
    } else {
        0x7fff_f000
    };
    if buf_ptr.checked_add(n as u64).is_none() {
        return Reply::error(EINVAL);
    }
    if fd >= MAX_OPEN_FILES as u64 {
        return Reply::error(EBADF);
    }
    let slot: usize = fd as usize;
    if position_of(k, slot).is_none() {
        return Reply::error(EBADF);
    }
    let mut done: Vec<u8> = Vec::new();
    let ghost first = k.tasks@;
    let ghost mut f = first.descriptor(slot as int)->0;
    let ghost d = k.fs.disk@;
    let ghost layout = k.fs.layout;
    let ghost goal = read_on(f, d, layout, n as int, offset, Seq::empty());
    assert(done@ =~= Seq::empty());
    proof {
        let t = (first.running()->0).files as int;
        assert(first.files.update(t, first.files[t]) =~= first.files);
        assert(first.descriptors().update(slot as int, Some(f)) =~= first.descriptors());
    }
    loop
        invariant
            k.wf(),
            slot < MAX_OPEN_FILES,
            first.wf(),
            first.running() is Some,
            k.mem == old(k).mem,
            k.regions == old(k).regions,
            k.fs.only_read(old(k).fs),
            d == k.fs.disk@,
            layout == k.fs.layout,
            first == old(k).tasks@,
            offset matches Some(o) ==> o < 0x8000_0000_0000_0000,
            done@.len() <= n <= 0x7fff_f000,
            k.tasks@.only_files(first, first.descriptors().update(slot as int, Some(f))),
            k.tasks@.descriptor(slot as int) == Some(f),
            goal == read_on(f, d, layout, n as int, offset, done@),
            goal == read_on(old(k).tasks@.descriptor(fd as int)->0, d, layout, n as int, offset, Seq::empty()),
            fd == slot,
            old(k).tasks@.descriptor(fd as int) is Some,
            d == old(k).fs.disk@,
            layout == old(k).fs.layout,
            n == min(len as int, 0x7fff_f000),
            buf_ptr + n <= u64::MAX,
        decreases n - done@.len(),
    {
        let left: usize = n - done.len();
        let want: usize = if left <= MAX_IO_LEN {
            left
        } else {
            MAX_IO_LEN
        };
        let at: Option<usize> = match offset {
            Some(start) => Some((start + done.len() as u64) as usize),
            None => None,
        };
        let mut buffer = zero_buffer(want);
        let ghost mid = k.tasks@;
        let ghost step = OpenFile::read_result(f, d, layout, zeros(want as nat), at);
        proof {
            crate::task::lemma_read_result_len(f, d, layout, zeros(want as nat), at);
        }
        let n1 = read_open_file(&mut k.tasks, &mut k.fs, slot, &mut buffer, at);
        proof {
            lemma_files_twice(first, mid, k.tasks@, slot as int, Some(f), Some(step.0));
            f = step.0;
        }
        let m: usize = match n1 {
            Ok(m) => m,
            Err(e) => {
                if done.len() == 0 {
                    return Reply::error(e);
                }
                let ghost data = done@;
                let r = store(done.len() as u64, buf_ptr, done);
                assert(r@.writes =~= seq![(buf_ptr, data)]);
                return r;
            },
        };
        let ghost was = done@;
        crate::text::push_bytes(&mut done, slice_subrange(buffer.as_slice(), 0, m));
        assert(buffer@.subrange(0, m as int) =~= buffer@.take(m as int));
        if m < want || done.len() == n {
            if done.len() == 0 {
                return Reply::plain(0);
            }
            let ghost data = done@;
            let r = store(done.len() as u64, buf_ptr, done);
            assert(r@.writes =~= seq![(buf_ptr, data)]);
            return r;
        }
    }
}

pub open spec fn pread_done(
    before: Kernel,
    after: Kernel,
    fd: u64,
    buf_ptr: u64,
    len: u64,
    offset: u64,
    r: ReplyV,
) -> bool {
    if offset >= 0x8000_0000_0000_0000 {
        after == before && r == failure(EINVAL)
    } else {
        read_done(before, after, fd, buf_ptr, len, Some(offset), r)
    }
}

pub(crate) fn sys_pread64(k: &mut Kernel, fd: u64, buf_ptr: u64, len: u64, offset: u64) -> (r: Reply)
    requires
        old(k).wf(),
    ensures
        final(k).wf(),
        pread_done(*old(k), *final(k), fd, buf_ptr, len, offset, r@),
{
    if offset >= 0x8000_0000_0000_0000 {
        return Reply::error(EINVAL);
    }
    read_file_chunks(k, fd, buf_ptr, len, Some(offset))
}

// ---- Positions ----

/// The length of an open file.
pub open spec fn length_of(f: OpenV) -> int {
    match f.extra {
        Some(ExtraV::Dir(_)) => 0,
        Some(ExtraV::Writable(_, buf)) => buf.len() as int,
        None => f.data.size(),
    }
}

/// Where a seek goes: from the start, from where the file is, or from its
/// end. `None` if there is no such place.
pub open spec fn seek_target(f: OpenV, offset: u64, whence: u64) -> Option<int> {
    let base = if whence == 0 {
        0
    } else if whence == 1 {
        f.pos
    } else {
        length_of(f)
    };
    let next = base + signed(offset);
    if whence > 2 || base > i64::MAX || next > i64::MAX || next < 0 || next > usize::MAX {
        None
    } else {
        Some(next)
    }
}

pub open spec fn lseek_done(before: Kernel, after: Kernel, fd: u64, offset: u64, whence: u64, r: ReplyV) -> bool {
    match before.tasks@.descriptor(fd as int) {
        None => after == before && r == failure(EBADF),
        Some(f) => match seek_target(f, offset, whence) {
            None => after == before && r == failure(EINVAL),
            Some(pos) => {
                &&& after.only_tasks(before)
                &&& after.tasks@.only_files(
                    before.tasks@,
                    before.tasks@.descriptors().update(fd as int, Some(OpenV { pos, ..f })),
                )
                &&& r == answer(pos as u64)
            },
        },
    }
}

pub(crate) fn sys_lseek(k: &mut Kernel, fd: u64, offset: u64, whence: u64) -> (r: Reply)
    requires
        old(k).wf(),
    ensures
        final(k).wf(),
        lseek_done(*old(k), *final(k), fd, offset, whence, r@),
{
    if fd >= MAX_OPEN_FILES as u64 {
        return Reply::error(EBADF);
    }
    let slot: usize = fd as usize;
    let pos: usize = match position_of(k, slot) {
        Some(p) => p,
        None => {
            return Reply::error(EBADF);
        },
    };
    let len: u64 = match open_file_len(&k.tasks, slot) {
        Some((len, _, _)) => len,
        None => {
            return Reply::error(EBADF);
        },
    };
    if whence > 2 {
        return Reply::error(EINVAL);
    }
    let base: u64 = if whence == 0 {
        0
    } else if whence == 1 {
        pos as u64
    } else {
        len
    };
    let shift: i128 = if offset < 0x8000_0000_0000_0000 {
        offset as i128
    } else {
        offset as i128 - 0x1_0000_0000_0000_0000
    };
    let next: i128 = base as i128 + shift;
    if base > i64::MAX as u64 || next > i64::MAX as i128 || next < 0 || next > usize::MAX as i128 {
        return Reply::error(EINVAL);
    }
    set_position(&mut k.tasks, slot, next as usize);
    Reply::plain(next as u64)
}

// ---- Opening and closing ----

/// What closing a file does: one that was being written goes to the disk, if
/// it can.
pub open spec fn close_done(before: Kernel, after: Kernel, fd: u64, r: ReplyV) -> bool {
    match before.tasks@.descriptor(fd as int) {
        None => after == before && r == failure(EBADF),
        Some(f) => {
            let v = before.fs.volume();
            let at = before.fs.place();
            &&& after.mem == before.mem
            &&& after.regions == before.regions
            &&& after.tasks@.only_files(before.tasks@, before.tasks@.descriptors().update(fd as int, None))
            &&& r == answer(0)
            &&& match f.extra {
                Some(ExtraV::Writable(path, buf)) => if writable(v, at, path, buf) {
                    after.fs.only_disk(before.fs) && after.fs.disk@ == saved(v, at, path, buf).0
                } else {
                    after.fs.only_read(before.fs)
                },
                _ => after.fs == before.fs,
            }
        },
    }
}

pub(crate) fn sys_close(k: &mut Kernel, fd: u64) -> (r: Reply)
    requires
        old(k).wf(),
    ensures
        final(k).wf(),
        close_done(*old(k), *final(k), fd, r@),
{
    if fd >= MAX_OPEN_FILES as u64 {
        return Reply::error(EBADF);
    }
    if position_of(k, fd as usize).is_none() {
        return Reply::error(EBADF);
    }
    match take_file(&mut k.tasks, fd as usize) {
        None => Reply::error(EBADF),
        Some(file) => {
            if let Some(OpenExtra::Writable(path, buf)) = &file.extra {
                if can_write(&mut k.fs, path.as_slice(), buf.as_slice()) {
                    let _ = write_file(&mut k.fs, path.as_slice(), buf.as_slice());
                }
            }
            Reply::plain(0)
        },
    }
}

/// The files that the kernel makes up: the state of the one processor.
pub open spec fn synthetic(path: Seq<u8>) -> Option<Seq<u8>> {
    if path == "/proc/stat".spec_bytes() {
        Some("cpu  0 0 0 0 0 0 0 0 0 0\ncpu0 0 0 0 0 0 0 0 0 0 0\n".spec_bytes())
    } else if path == "/sys/devices/system/cpu/possible".spec_bytes() || path
        == "/sys/devices/system/cpu/online".spec_bytes() || path
        == "/sys/devices/system/cpu/present".spec_bytes() {
        Some("0\n".spec_bytes())
    } else {
        None
    }
}

fn synthetic_proc_file(path: &[u8]) -> (r: Option<&'static [u8]>)
    ensures
        match synthetic(path@) {
            Some(b) => r matches Some(x) && x@ == b,
            None => r is None,
        },
{
    if same_bytes(path, "/proc/stat".as_bytes()) {
        Some("cpu  0 0 0 0 0 0 0 0 0 0\ncpu0 0 0 0 0 0 0 0 0 0 0\n".as_bytes())
    } else if same_bytes(path, "/sys/devices/system/cpu/possible".as_bytes()) || same_bytes(
        path,
        "/sys/devices/system/cpu/online".as_bytes(),
    ) || same_bytes(path, "/sys/devices/system/cpu/present".as_bytes()) {
        Some("0\n".as_bytes())
    } else {
        None
    }
}

pub const O_ACCMODE: u64 = 0x3;

pub const O_CREAT: u64 = 0o100;

pub const O_DIRECTORY: u64 = 0o200000;

/// What a path opens as.
pub ghost enum Opened {
    Made(Seq<u8>),
    Disk(File),
    Dir(Seq<u8>),
    Writable(Seq<u8>, Seq<u8>),
}

pub open spec fn open_result(v: Volume, at: Place, path: Seq<u8>, flags: u64) -> Result<Opened, i64> {
    let writing = flags & O_ACCMODE != 0;
    match synthetic(path) {
        Some(b) => Ok(Opened::Made(b)),
        None => match status(v, at, path) {
            Ok((true, _)) => if writing {
                Err(EISDIR)
            } else {
                Ok(Opened::Dir(path))
            },
            Ok((false, _)) => if flags & O_DIRECTORY != 0 {
                Err(ENOTDIR)
            } else if writing {
                match content(v, at, path) {
                    Ok(bytes) => Ok(Opened::Writable(path, bytes)),
                    Err(_) => Err(ENOENT),
                }
            } else {
                match file_entry(v, at, path) {
                    Ok(e) => Ok(Opened::Disk(opened(e))),
                    Err(_) => Err(ENOENT),
                }
            },
            Err(_) => if flags & O_CREAT != 0 {
                Ok(Opened::Writable(path, Seq::empty()))
            } else {
                Err(ENOENT)
            },
        },
    }
}

/// Whether an open file is what a path opened as, at its start.
pub open spec fn opened_as(f: OpenV, o: Opened, ino: u64) -> bool {
    &&& f.pos == 0
    &&& f.ino == ino
    &&& match o {
        Opened::Made(b) => f.extra is None && (f.data matches FileBacking::Static(x) && x@ == b),
        Opened::Disk(x) => f.extra is None && f.data == FileBacking::Disk(x),
        Opened::Dir(p) => f.extra == Some(ExtraV::Dir(p)) && (f.data matches FileBacking::Static(x) && x@.len() == 0),
        Opened::Writable(p, b) => f.extra == Some(ExtraV::Writable(p, b)) && (f.data matches FileBacking::Static(x)
            && x@.len() == 0),
    }
}

/// The lowest descriptor that a file can have. Those below are the console's.
pub const FIRST_FILE: usize = 3;

pub open spec fn open_done(before: Kernel, after: Kernel, path: Option<Seq<u8>>, flags: u64, r: ReplyV) -> bool {
    match path {
        None => after == before && r == failure(EINVAL),
        Some(p) => {
            &&& after.mem == before.mem
            &&& after.regions == before.regions
            &&& after.fs.only_read(before.fs)
            &&& match open_result(before.fs.volume(), before.fs.place(), p, flags) {
                Err(e) => after.tasks@ == before.tasks@ && r == failure(e),
                Ok(o) => match free_descriptor(before.tasks@.descriptors(), FIRST_FILE as int) {
                    None => after.tasks@ == before.tasks@ && r == failure(EBADF),
                    Some(fd) => {
                        let f = after.tasks@.descriptors()[fd];
                        &&& r == answer(fd as u64)
                        &&& f is Some
                        &&& opened_as(f->0, o, path_hash(p))
                        &&& after.tasks@.only_files(before.tasks@, before.tasks@.descriptors().update(fd, f))
                    },
                },
            }
        },
    }
}

/// Finds what a path opens as.
fn open_path(fs: &mut Fs, path: &[u8], flags: u64) -> (r: Result<OpenFile, i64>)
    requires
        old(fs).wf(),
    ensures
        final(fs).wf(),
        final(fs).only_read(*old(fs)),
        match open_result(old(fs).volume(), old(fs).place(), path@, flags) {
            Ok(o) => r matches Ok(f) && opened_as(f@, o, path_hash(path@)),
            Err(e) => r matches Err(y) && y == e,
        },
{
    let ino: u64 = hash_path(path);
    let writing: bool = flags & O_ACCMODE != 0;
    if let Some(b) = synthetic_proc_file(path) {
        return Ok(OpenFile { data: FileBacking::Static(b), pos: 0, ino, extra: None });
    }
    let none: &'static [u8] = "".as_bytes();
    proof {
        reveal_strlit("");
        assert(none@ =~= Seq::empty());
    }
    match stat_path(fs, path) {
        Ok((true, _)) => {
            if writing {
                Err(EISDIR)
            } else {
                Ok(
                    OpenFile {
                        data: FileBacking::Static(none),
                        pos: 0,
                        ino,
                        extra: Some(OpenExtra::Dir(slice_to_vec(path))),
                    },
                )
            }
        },
        Ok((false, _)) => {
            if flags & O_DIRECTORY != 0 {
                Err(ENOTDIR)
            } else if writing {
                match read_file(fs, path) {
                    Ok(bytes) => Ok(
                        OpenFile {
                            data: FileBacking::Static(none),
                            pos: 0,
                            ino,
                            extra: Some(OpenExtra::Writable(slice_to_vec(path), bytes)),
                        },
                    ),
                    Err(_) => Err(ENOENT),
                }
            } else {
                match open_file(fs, path) {
                    Ok(file) => Ok(OpenFile { data: FileBacking::Disk(file), pos: 0, ino, extra: None }),
                    Err(_) => Err(ENOENT),
                }
            }
        },
        Err(_) => {
            if flags & O_CREAT != 0 {
                let empty: Vec<u8> = Vec::new();
                assert(empty@ =~= Seq::empty());
                Ok(
                    OpenFile {
                        data: FileBacking::Static(none),
                        pos: 0,
                        ino,
                        extra: Some(OpenExtra::Writable(slice_to_vec(path), empty)),
                    },
                )
            } else {
                Err(ENOENT)
            }
        },
    }
}

pub open spec fn text_view(p: Option<Vec<u8>>) -> Option<Seq<u8>> {
    match p {
        Some(v) => Some(v@),
        None => None,
    }
}

pub(crate) fn sys_open(k: &mut Kernel, path: &Option<Vec<u8>>, flags: u64) -> (r: Reply)
    requires
        old(k).wf(),
    ensures
        final(k).wf(),
        open_done(*old(k), *final(k), text_view(*path), flags, r@),
{
    match path {
        None => Reply::error(EINVAL),
        Some(p) => match open_path(&mut k.fs, p.as_slice(), flags) {
            Err(e) => Reply::error(e),
            Ok(file) => match install_file(&mut k.tasks, file, FIRST_FILE) {
                Some(fd) => Reply::plain(fd as u64),
                None => Reply::error(EBADF),
            },
        },
    }
}

// ---- Directories and names ----

pub open spec fn unlink_done(before: Kernel, after: Kernel, path: Option<Seq<u8>>, r: ReplyV) -> bool {
    match path {
        None => after == before && r == failure(EINVAL),
        Some(p) => {
            let v = before.fs.volume();
            let at = before.fs.place();
            &&& after.mem == before.mem
            &&& after.regions == before.regions
            &&& after.tasks == before.tasks
            &&& if writable(v, at, p, Seq::empty()) {
                &&& after.fs.only_disk(before.fs)
                &&& after.fs.disk@ == removed(v, at, p).0
                &&& r == if removed(v, at, p).1 is Ok {
                    answer(0)
                } else {
                    failure(ENOENT)
                }
            } else {
                after.fs.only_read(before.fs) && r == failure(ENOENT)
            }
        },
    }
}

pub(crate) fn sys_unlink(k: &mut Kernel, path: &Option<Vec<u8>>) -> (r: Reply)
    requires
        old(k).wf(),
    ensures
        final(k).wf(),
        unlink_done(*old(k), *final(k), text_view(*path), r@),
{
    match path {
        None => Reply::error(EINVAL),
        Some(p) => {
            let none: Vec<u8> = Vec::new();
            assert(none@ =~= Seq::empty());
            if !can_write(&mut k.fs, p.as_slice(), none.as_slice()) {
                return Reply::error(ENOENT);
            }
            match remove_file(&mut k.fs, p.as_slice()) {
                Ok(_) => Reply::plain(0),
                Err(_) => Reply::error(ENOENT),
            }
        },
    }
}

pub open spec fn fchdir_done(before: Kernel, after: Kernel, fd: u64, r: ReplyV) -> bool {
    match before.tasks@.descriptor(fd as int) {
        Some(OpenV { extra: Some(ExtraV::Dir(path)), .. }) => {
            &&& after.mem == before.mem
            &&& after.regions == before.regions
            &&& after.tasks == before.tasks
            &&& after.fs.volume() == before.fs.volume()
            &&& after.fs.sectors_written == before.fs.sectors_written
            &&& match walked(before.fs.volume(), before.fs.place(), path) {
                Ok(p) => after.fs.place() == p && r == answer(0),
                Err(_) => after.fs.only_read(before.fs) && r == failure(ENOENT),
            }
        },
        _ => after == before && r == failure(EBADF),
    }
}

pub(crate) fn sys_fchdir(k: &mut Kernel, fd: u64) -> (r: Reply)
    requires
        old(k).wf(),
    ensures
        final(k).wf(),
        fchdir_done(*old(k), *final(k), fd, r@),
{
    if fd >= MAX_OPEN_FILES as u64 {
        return Reply::error(EBADF);
    }
    match open_file_dir_path(&k.tasks, fd as usize) {
        None => Reply::error(EBADF),
        Some(path) => match change_dir(&mut k.fs, path.as_slice()) {
            Ok(_) => Reply::plain(0),
            Err(_) => Reply::error(ENOENT),
        },
    }
}

pub open spec fn ftruncate_done(before: Kernel, after: Kernel, fd: u64, size: u64, r: ReplyV) -> bool {
    match before.tasks@.descriptor(fd as int) {
        None => after == before && r == failure(EBADF),
        Some(f) => {
            &&& after.only_tasks(before)
            &&& match f.extra {
                Some(ExtraV::Writable(path, buf)) => if size > usize::MAX {
                    after.tasks@ == before.tasks@ && r == failure(EFBIG)
                } else {
                    &&& r == answer(0)
                    &&& after.tasks@.only_files(
                        before.tasks@,
                        before.tasks@.descriptors().update(
                            fd as int,
                            Some(OpenV { extra: Some(ExtraV::Writable(path, resized(buf, size as nat))), ..f }),
                        ),
                    )
                },
                _ => r == (if size > usize::MAX {
                    failure(EFBIG)
                } else {
                    failure(EINVAL)
                }) && after.tasks@.only_files(before.tasks@, before.tasks@.descriptors()),
            }
        },
    }
}

pub(crate) fn sys_ftruncate(k: &mut Kernel, fd: u64, size: u64) -> (r: Reply)
    requires
        old(k).wf(),
    ensures
        final(k).wf(),
        ftruncate_done(*old(k), *final(k), fd, size, r@),
{
    if fd >= MAX_OPEN_FILES as u64 {
        return Reply::error(EBADF);
    }
    if position_of(k, fd as usize).is_none() {
        return Reply::error(EBADF);
    }
    if size > usize::MAX as u64 {
        proof {
            let t = k.task().files as int;
            assert(k.tasks@.files.update(t, k.tasks@.files[t]) =~= k.tasks@.files);
        }
        return Reply::error(EFBIG);
    }
    match truncate_open_file(&mut k.tasks, fd as usize, size) {
        Ok(_) => Reply::plain(0),
        Err(e) => Reply::error(e),
    }
}

pub open spec fn fstat_reply(k: Kernel, fd: u64, at: u64) -> ReplyV {
    match k.tasks@.descriptor(fd as int) {
        None => failure(EBADF),
        Some(f) => storing(0, at, stat_bytes(length_of(f) as u64, f.ino, f.extra matches Some(ExtraV::Dir(_)))),
    }
}

pub(crate) fn sys_fstat(k: &Kernel, fd: u64, at: u64) -> (r: Reply)
    requires
        k.wf(),
    ensures
        r@ == fstat_reply(*k, fd, at),
{
    if fd >= MAX_OPEN_FILES as u64 {
        return Reply::error(EBADF);
    }
    match open_file_len(&k.tasks, fd as usize) {
        None => Reply::error(EBADF),
        Some((size, ino, dir)) => store(0, at, stat_of(size, ino, dir)),
    }
}

pub open spec fn stat_reply(v: Volume, place: Place, path: Option<Seq<u8>>, at: u64) -> ReplyV {
    match path {
        None => failure(EINVAL),
        Some(p) => match synthetic(p) {
            Some(b) => storing(0, at, stat_bytes(b.len() as u64, path_hash(p), false)),
            None => match status(v, place, p) {
                Ok((dir, size)) => storing(0, at, stat_bytes(size as u64, path_hash(p), dir)),
                Err(_) => failure(ENOENT),
            },
        },
    }
}

pub(crate) fn sys_newfstatat(k: &mut Kernel, path: &Option<Vec<u8>>, at: u64) -> (r: Reply)
    requires
        old(k).wf(),
    ensures
        final(k).wf(),
        final(k).only_read(*old(k)),
        r@ == stat_reply(old(k).fs.volume(), old(k).fs.place(), text_view(*path), at),
{
    match path {
        None => Reply::error(EINVAL),
        Some(p) => {
            if let Some(b) = synthetic_proc_file(p.as_slice()) {
                return store(0, at, stat_of(b.len() as u64, hash_path(p.as_slice()), false));
            }
            match stat_path(&mut k.fs, p.as_slice()) {
                Ok((dir, size)) => store(0, at, stat_of(size as u64, hash_path(p.as_slice()), dir)),
                Err(_) => Reply::error(ENOENT),
            }
        },
    }
}

pub open spec fn access_reply(v: Volume, place: Place, path: Option<Seq<u8>>) -> ReplyV {
    match path {
        None => failure(EINVAL),
        Some(p) => if synthetic(p) is Some || status(v, place, p) is Ok {
            answer(0)
        } else {
            failure(ENOENT)
        },
    }
}

pub(crate) fn sys_access(k: &mut Kernel, path: &Option<Vec<u8>>) -> (r: Reply)
    requires
        old(k).wf(),
    ensures
        final(k).wf(),
        final(k).only_read(*old(k)),
        r@ == access_reply(old(k).fs.volume(), old(k).fs.place(), text_view(*path)),
{
    match path {
        None => Reply::error(EINVAL),
        Some(p) => {
            if synthetic_proc_file(p.as_slice()).is_some() {
                return Reply::plain(0);
            }
            match stat_path(&mut k.fs, p.as_slice()) {
                Ok(_) => Reply::plain(0),
                Err(_) => Reply::error(ENOENT),
            }
        },
    }
}

/// Where a link leads. The only link is the one to the running program.
pub open spec fn readlink_reply(k: Kernel, path: Option<Seq<u8>>, buf_ptr: u64, size: u64) -> ReplyV {
    let exe = k.task().exe_path@;
    let n = min(exe.len() as int, size as int);
    match path {
        _ if size == 0 => failure(EINVAL),
        None => failure(EINVAL),
        Some(p) => if p.len() == 0 {
            failure(ENOENT)
        } else if p != "/proc/self/exe".spec_bytes() {
            match status(k.fs.volume(), k.fs.place(), p) {
                Ok(_) => failure(EINVAL),
                Err(_) => failure(ENOENT),
            }
        } else if exe.len() == 0 {
            failure(ENOENT)
        } else {
            storing(n as u64, buf_ptr, exe.take(n))
        },
    }
}

pub(crate) fn sys_readlink(k: &mut Kernel, path: &Option<Vec<u8>>, buf_ptr: u64, size: u64) -> (r: Reply)
    requires
        old(k).wf(),
    ensures
        final(k).wf(),
        final(k).only_read(*old(k)),
        r@ == readlink_reply(*old(k), text_view(*path), buf_ptr, size),
{
    if size == 0 {
        return Reply::error(EINVAL);
    }
    match path {
        None => Reply::error(EINVAL),
        Some(p) => {
            if p.len() == 0 {
                return Reply::error(ENOENT);
            }
            if !same_bytes(p.as_slice(), "/proc/self/exe".as_bytes()) {
                return match stat_path(&mut k.fs, p.as_slice()) {
                    Ok(_) => Reply::error(EINVAL),
                    Err(_) => Reply::error(ENOENT),
                };
            }
            let exe = current_exe_path(&k.tasks);
            if exe.len() == 0 {
                return Reply::error(ENOENT);
            }
            let n: usize = if (exe.len() as u64) <= size {
                exe.len()
            } else {
                size as usize
            };
            assert(exe@.take(n as int) =~= exe@.subrange(0, n as int));
            store(n as u64, buf_ptr, slice_to_vec(slice_subrange(exe.as_slice(), 0, n)))
        },
    }
}

/// The path of the current directory.
pub open spec fn current_path(fs: Fs) -> Seq<u8> {
    if fs.stack@.len() == 0 {
        seq![0x2Fu8]
    } else {
        path_text(stack_view(fs.stack@))
    }
}

pub open spec fn getcwd_reply(fs: Fs, buf_ptr: u64, size: u64) -> ReplyV {
    let path = current_path(fs);
    let needed = path.len() + 1;
    if needed > 4096 {
        failure(ENAMETOOLONG)
    } else if size < needed {
        failure(ERANGE)
    } else if buf_ptr == 0 || buf_ptr + needed > u64::MAX {
        failure(EFAULT)
    } else {
        storing(needed as u64, buf_ptr, path.push(0))
    }
}

pub(crate) fn sys_getcwd(fs: &Fs, buf_ptr: u64, size: u64) -> (r: Reply)
    ensures
        r@ == getcwd_reply(*fs, buf_ptr, size),
{
    let mut path = cwd_path_string(fs);
    if path.len() >= 4096 {
        return Reply::error(ENAMETOOLONG);
    }
    let needed: u64 = path.len() as u64 + 1;
    if size < needed {
        return Reply::error(ERANGE);
    }
    if buf_ptr == 0 || buf_ptr.checked_add(needed).is_none() {
        return Reply::error(EFAULT);
    }
    path.push(0);
    store(needed, buf_ptr, path)
}


proof fn lemma_free_descriptor(d: Seq<Option<OpenV>>, from: int)
    requires
        0 <= from,
    ensures
        free_descriptor(d, from) matches Some(i) ==> from <= i < d.len() && d[i] is None,
    decreases d.len() - from,
{
    if from < d.len() && d[from] is Some {
        lemma_free_descriptor(d, from + 1);
    }
}

/// Opening a file answers a descriptor that is not the console's and was not
/// in use, where the file is open from its start on. The other descriptors
/// stay as they are.
pub proof fn law_open_spares_the_console(
    before: Kernel,
    after: Kernel,
    path: Seq<u8>,
    flags: u64,
    r: ReplyV,
    o: Opened,
)
    requires
        before.wf(),
        open_done(before, after, Some(path), flags, r),
        open_result(before.fs.volume(), before.fs.place(), path, flags) == Ok::<Opened, i64>(o),
        free_descriptor(before.tasks@.descriptors(), FIRST_FILE as int) is Some,
    ensures
        ({
            let d = before.tasks@.descriptors();
            let fd = r.value as int;
            &&& 3 <= fd < d.len()
            &&& d[fd] is None
            &&& after.tasks@.descriptors()[fd] matches Some(f) && f.pos == 0 && opened_as(f, o, path_hash(path))
            &&& after.tasks@.descriptors() == d.update(fd, after.tasks@.descriptors()[fd])
        }),
{
    lemma_free_descriptor(before.tasks@.descriptors(), FIRST_FILE as int);
}
} // verus!
