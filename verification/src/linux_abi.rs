//! How Linux system calls are answered: with a number, with what is to be
//! written to the memory of the program, with what goes to the console, and
//! with what is to happen next. Here too are the calls that only compute.
use crate::le::{bytes32, bytes64, get64, le64, put32, put64};
use crate::text::{decimal, is_utf8, push_bytes, push_decimal, push_str};
use crate::task::SavedContext;
use crate::timer::HZ;
use vstd::prelude::*;
use vstd::string::*;
use vstd::utf8::valid_utf8;

verus! {

pub const ENOSYS: i64 = -38;

pub const ENOTTY: i64 = -25;

pub const EINVAL: i64 = -22;

pub const EBADF: i64 = -9;

pub const EAGAIN: i64 = -11;

pub const ETIMEDOUT: i64 = -110;

pub const ENOENT: i64 = -2;

pub const EEXIST: i64 = -17;

pub const ENOTDIR: i64 = -20;

pub const EISDIR: i64 = -21;

pub const ENOMEM: i64 = -12;

pub const EFAULT: i64 = -14;

pub const ERANGE: i64 = -34;

pub const ENAMETOOLONG: i64 = -36;

pub const EFBIG: i64 = -27;

pub const MAX_IO_LEN: usize = 4096;

pub const MAX_IOVEC: usize = 64;

pub const MAX_PATH_LEN: usize = 256;

/// A result as the register holds it: an error is a negative number.
pub open spec fn encoded(v: i64) -> u64 {
    if v >= 0 {
        v as u64
    } else {
        (0x1_0000_0000_0000_0000 + v) as u64
    }
}

pub fn encode(v: i64) -> (r: u64)
    ensures
        r == encoded(v),
{
    if v >= 0 {
        v as u64
    } else {
        (0x1_0000_0000_0000_0000i128 + v as i128) as u64
    }
}

/// A register as a number with a sign.
pub open spec fn signed(v: u64) -> int {
    if v < 0x8000_0000_0000_0000 {
        v as int
    } else {
        v - 0x1_0000_0000_0000_0000
    }
}

/// What is to happen after a call has been answered.
pub enum Next {
    /// The program goes on.
    Resume,
    /// The program goes on with another thread pointer.
    LoadFs(u64),
    /// Another task may run first.
    Yield,
    /// The program sleeps until it is woken.
    Sleep,
    /// The program waits at an address; how that ended is its answer.
    Wait,
    /// A directory is to be made; how that ended is the answer.
    MakeDirectory(Vec<u8>),
    /// The program goes on with the registers it had before a signal.
    Restore(SavedContext),
    /// The task is over.
    Exit,
}

pub ghost enum NextV {
    Resume,
    LoadFs(u64),
    Yield,
    Sleep,
    Wait,
    MakeDirectory(Seq<u8>),
    Restore(SavedContext),
    Exit,
}

/// The answer to a system call.
pub struct Reply {
    pub value: u64,
    pub writes: Vec<(u64, Vec<u8>)>,
    pub output: Vec<u8>,
    pub next: Next,
}

pub ghost struct ReplyV {
    pub value: u64,
    pub writes: Seq<(u64, Seq<u8>)>,
    pub output: Seq<u8>,
    pub next: NextV,
}

pub open spec fn writes_view(s: Seq<(u64, Vec<u8>)>) -> Seq<(u64, Seq<u8>)> {
    s.map_values(|x: (u64, Vec<u8>)| (x.0, x.1@))
}

impl Next {
    pub open spec fn view(self) -> NextV {
        match self {
            Next::Resume => NextV::Resume,
            Next::LoadFs(v) => NextV::LoadFs(v),
            Next::Yield => NextV::Yield,
            Next::Sleep => NextV::Sleep,
            Next::Wait => NextV::Wait,
            Next::MakeDirectory(p) => NextV::MakeDirectory(p@),
            Next::Restore(c) => NextV::Restore(c),
            Next::Exit => NextV::Exit,
        }
    }
}

impl Reply {
    pub open spec fn view(self) -> ReplyV {
        ReplyV {
            value: self.value,
            writes: writes_view(self.writes@),
            output: self.output@,
            next: self.next@,
        }
    }

    pub(crate) fn plain(value: u64) -> (r: Reply)
        ensures
            r@ == answer(value),
    {
        let r = Reply { value, writes: Vec::new(), output: Vec::new(), next: Next::Resume };
        assert(r@.writes =~= Seq::empty());
        assert(r@.output =~= Seq::empty());
        r
    }

    pub(crate) fn error(e: i64) -> (r: Reply)
        ensures
            r@ == failure(e),
    {
        Reply::plain(encode(e))
    }

    /// Adds something to write to the program's memory.
    pub(crate) fn write(&mut self, at: u64, bytes: Vec<u8>)
        ensures
            final(self)@ == (ReplyV { writes: old(self)@.writes.push((at, bytes@)), ..old(self)@ }),
    {
        let ghost was = self.writes@;
        let ghost shown = bytes@;
        self.writes.push((at, bytes));
        assert(writes_view(self.writes@) =~= writes_view(was).push((at, shown)));
    }
}

/// The answer that is just a number.
pub open spec fn answer(value: u64) -> ReplyV {
    ReplyV { value, writes: Seq::empty(), output: Seq::empty(), next: NextV::Resume }
}

/// The answer that is an error.
pub open spec fn failure(e: i64) -> ReplyV {
    answer(encoded(e))
}

/// The answer with one run of bytes to write to the program's memory.
pub open spec fn storing(value: u64, at: u64, bytes: Seq<u8>) -> ReplyV {
    ReplyV { writes: seq![(at, bytes)], ..answer(value) }
}

pub(crate) fn store(value: u64, at: u64, bytes: Vec<u8>) -> (r: Reply)
    ensures
        r@ == storing(value, at, bytes@),
{
    let mut r = Reply::plain(value);
    let ghost shown = bytes@;
    r.write(at, bytes);
    assert(r@.writes =~= seq![(at, shown)]);
    r
}

// ---- Calls that only compute ----

pub const TIOCGWINSZ: u64 = 0x5413;

pub open spec fn ioctl_reply(request: u64) -> ReplyV {
    if request == TIOCGWINSZ {
        failure(ENOTTY)
    } else {
        failure(ENOSYS)
    }
}

/// No file is a terminal.
pub(crate) fn sys_ioctl(request: u64) -> (r: Reply)
    ensures
        r@ == ioctl_reply(request),
{
    if request == TIOCGWINSZ {
        Reply::error(ENOTTY)
    } else {
        Reply::error(ENOSYS)
    }
}

pub open spec fn zeros(n: nat) -> Seq<u8> {
    Seq::new(n, |i: int| 0u8)
}

pub(crate) fn push_zeros(out: &mut Vec<u8>, n: usize)
    ensures
        final(out)@ == old(out)@ + zeros(n as nat),
{
    let ghost before = out@;
    for i in 0..n
        invariant
            out@ == before + zeros(i as nat),
    {
        out.push(0);
        assert(out@ =~= before + zeros((i + 1) as nat));
    }
}

/// The processors that a task may run on: the first one only.
pub open spec fn affinity_reply(size: u64, mask_ptr: u64) -> ReplyV {
    let n = if size < 8 {
        size
    } else {
        8
    };
    if n == 0 {
        failure(EINVAL)
    } else {
        storing(n, mask_ptr, seq![1u8] + zeros((n - 1) as nat))
    }
}

pub(crate) fn sys_sched_getaffinity(size: u64, mask_ptr: u64) -> (r: Reply)
    ensures
        r@ == affinity_reply(size, mask_ptr),
{
    let n: u64 = if size < 8 {
        size
    } else {
        8
    };
    if n == 0 {
        return Reply::error(EINVAL);
    }
    let mut mask: Vec<u8> = Vec::new();
    mask.push(1);
    push_zeros(&mut mask, (n - 1) as usize);
    assert(mask@ =~= seq![1u8] + zeros((n - 1) as nat));
    store(n, mask_ptr, mask)
}

/// The processor and the node that a task runs on, for whoever asks.
pub open spec fn getcpu_reply(cpu_ptr: u64, node_ptr: u64) -> ReplyV {
    let first = if cpu_ptr != 0 {
        seq![(cpu_ptr, zeros(4))]
    } else {
        Seq::empty()
    };
    let both = if node_ptr != 0 {
        first.push((node_ptr, zeros(4)))
    } else {
        first
    };
    ReplyV { writes: both, ..answer(0) }
}

pub(crate) fn sys_getcpu(cpu_ptr: u64, node_ptr: u64) -> (r: Reply)
    ensures
        r@ == getcpu_reply(cpu_ptr, node_ptr),
{
    let mut r = Reply::plain(0);
    if cpu_ptr != 0 {
        let mut word: Vec<u8> = Vec::new();
        push_zeros(&mut word, 4);
        assert(word@ =~= zeros(4));
        r.write(cpu_ptr, word);
        assert(r@.writes =~= seq![(cpu_ptr, zeros(4))]);
    }
    if node_ptr != 0 {
        let mut word: Vec<u8> = Vec::new();
        push_zeros(&mut word, 4);
        assert(word@ =~= zeros(4));
        r.write(node_ptr, word);
    }
    r
}

/// One of the six fields of the system's name: its text, filled up with zeros
/// to 65 bytes.
pub open spec fn name_field(s: &str) -> Seq<u8> {
    Seq::new(
        65,
        |i: int|
            if i < s.spec_bytes().len() {
                s.spec_bytes()[i]
            } else {
                0u8
            },
    )
}

pub open spec fn system_name() -> Seq<u8> {
    name_field("Linux") + name_field("konjacos") + name_field("6.1.0") + name_field("#1 KonjacOS") + name_field(
        "x86_64",
    ) + name_field("(none)")
}

pub(crate) fn push_field(out: &mut Vec<u8>, s: &str)
    ensures
        final(out)@ == old(out)@ + name_field(s),
{
    let ghost before = out@;
    let text = s.as_bytes();
    for i in 0..65usize
        invariant
            text@ == s.spec_bytes(),
            out@ == before + name_field(s).take(i as int),
    {
        if i < text.len() {
            out.push(text[i]);
        } else {
            out.push(0);
        }
        assert(out@ =~= before + name_field(s).take(i + 1));
    }
    assert(name_field(s).take(65) =~= name_field(s));
}

pub(crate) fn sys_uname(buf_ptr: u64) -> (r: Reply)
    ensures
        r@ == storing(0, buf_ptr, system_name()),
{
    let mut name: Vec<u8> = Vec::new();
    push_field(&mut name, "Linux");
    push_field(&mut name, "konjacos");
    push_field(&mut name, "6.1.0");
    push_field(&mut name, "#1 KonjacOS");
    push_field(&mut name, "x86_64");
    push_field(&mut name, "(none)");
    assert(name@ =~= system_name());
    store(0, buf_ptr, name)
}

/// The system's state: how long it has been up, how many bytes of memory it
/// has and how many are free.
pub open spec fn system_info(uptime: u64, total: u64, free: u64) -> Seq<u8> {
    bytes64(uptime) + zeros(24) + bytes64(total.wrapping_mul(4096)) + bytes64(free.wrapping_mul(4096)) + zeros(56)
        + bytes32(1) + zeros(4)
}

pub(crate) fn sys_sysinfo(info_ptr: u64, uptime: u64, total: u64, free: u64) -> (r: Reply)
    ensures
        r@ == storing(0, info_ptr, system_info(uptime, total, free)),
{
    let mut info: Vec<u8> = Vec::new();
    put64(&mut info, uptime);
    push_zeros(&mut info, 24);
    put64(&mut info, total.wrapping_mul(4096));
    put64(&mut info, free.wrapping_mul(4096));
    push_zeros(&mut info, 56);
    put32(&mut info, 1);
    push_zeros(&mut info, 4);
    assert(info@ =~= system_info(uptime, total, free));
    store(0, info_ptr, info)
}

/// What is known of a file: that it is on the first device, its inode number,
/// its kind with its permissions, and its size.
pub open spec fn stat_bytes(size: u64, ino: u64, is_dir: bool) -> Seq<u8> {
    bytes64(1) + bytes64(ino) + bytes64(1) + bytes32(
        if is_dir {
            0o040755
        } else {
            0o100644
        },
    ) + zeros(20) + bytes64(size) + zeros(88)
}

pub(crate) fn stat_of(size: u64, ino: u64, is_dir: bool) -> (r: Vec<u8>)
    ensures
        r@ == stat_bytes(size, ino, is_dir),
{
    let mut out: Vec<u8> = Vec::new();
    put64(&mut out, 1);
    put64(&mut out, ino);
    put64(&mut out, 1);
    put32(
        &mut out,
        if is_dir {
            0o040755
        } else {
            0o100644
        },
    );
    push_zeros(&mut out, 20);
    put64(&mut out, size);
    push_zeros(&mut out, 88);
    assert(out@ =~= stat_bytes(size, ino, is_dir));
    out
}

pub const RLIMIT_STACK: u64 = 3;

pub const RLIMIT_NOFILE: u64 = 7;

pub const RLIM_INFINITY: u64 = 0xFFFF_FFFF_FFFF_FFFF;

pub open spec fn limits(resource: u64) -> (u64, u64) {
    if resource == RLIMIT_NOFILE {
        (16, 16)
    } else if resource == RLIMIT_STACK {
        (0x80_0000, RLIM_INFINITY)
    } else {
        (RLIM_INFINITY, RLIM_INFINITY)
    }
}

/// A task's limits, which cannot be changed.
pub open spec fn prlimit_reply(resource: u64, new_limit: u64, old_limit: u64) -> ReplyV {
    if new_limit != 0 {
        failure(ENOSYS)
    } else if old_limit != 0 {
        storing(0, old_limit, bytes64(limits(resource).0) + bytes64(limits(resource).1))
    } else {
        answer(0)
    }
}

pub(crate) fn sys_prlimit64(resource: u64, new_limit: u64, old_limit: u64) -> (r: Reply)
    ensures
        r@ == prlimit_reply(resource, new_limit, old_limit),
{
    if new_limit != 0 {
        return Reply::error(ENOSYS);
    }
    if old_limit == 0 {
        return Reply::plain(0);
    }
    let (soft, hard): (u64, u64) = if resource == RLIMIT_NOFILE {
        (16, 16)
    } else if resource == RLIMIT_STACK {
        (0x80_0000, RLIM_INFINITY)
    } else {
        (RLIM_INFINITY, RLIM_INFINITY)
    };
    let mut out: Vec<u8> = Vec::new();
    put64(&mut out, soft);
    put64(&mut out, hard);
    assert(out@ =~= bytes64(soft) + bytes64(hard));
    store(0, old_limit, out)
}

// ---- Clocks ----

pub const CLOCK_REALTIME: u64 = 0;

pub const CLOCK_MONOTONIC: u64 = 1;

pub const CLOCK_BOOTTIME: u64 = 7;

pub open spec fn is_clock(id: u64) -> bool {
    id == CLOCK_REALTIME || id == CLOCK_MONOTONIC || id == CLOCK_BOOTTIME
}

/// A number of ticks as whole seconds and parts of a second.
pub open spec fn time_bytes(ticks: u64, parts: u64) -> Seq<u8> {
    bytes64(ticks / HZ as u64) + bytes64(((ticks % HZ as u64) * (parts / HZ as u64)) as u64)
}

pub(crate) fn time_of(ticks: u64, parts: u64) -> (r: Vec<u8>)
    requires
        parts <= 1_000_000_000,
    ensures
        r@ == time_bytes(ticks, parts),
{
    let mut out: Vec<u8> = Vec::new();
    let hz: u64 = HZ as u64;
    put64(&mut out, ticks / hz);
    let rest: u64 = ticks % hz;
    let unit: u64 = parts / hz;
    assert(rest * unit <= 99 * 10_000_000) by (nonlinear_arith)
        requires
            rest <= 99,
            unit <= 10_000_000,
    ;
    put64(&mut out, rest * unit);
    assert(out@ =~= time_bytes(ticks, parts));
    out
}

pub open spec fn gettime_reply(clock: u64, ts_ptr: u64, ticks: u64) -> ReplyV {
    if !is_clock(clock) {
        failure(EINVAL)
    } else {
        storing(0, ts_ptr, time_bytes(ticks, 1_000_000_000))
    }
}

pub(crate) fn sys_clock_gettime(clock: u64, ts_ptr: u64, ticks: u64) -> (r: Reply)
    ensures
        r@ == gettime_reply(clock, ts_ptr, ticks),
{
    if clock != CLOCK_REALTIME && clock != CLOCK_MONOTONIC && clock != CLOCK_BOOTTIME {
        return Reply::error(EINVAL);
    }
    store(0, ts_ptr, time_of(ticks, 1_000_000_000))
}

pub open spec fn timeofday_reply(tv_ptr: u64, ticks: u64) -> ReplyV {
    if tv_ptr == 0 {
        answer(0)
    } else {
        storing(0, tv_ptr, time_bytes(ticks, 1_000_000))
    }
}

pub(crate) fn sys_gettimeofday(tv_ptr: u64, ticks: u64) -> (r: Reply)
    ensures
        r@ == timeofday_reply(tv_ptr, ticks),
{
    if tv_ptr == 0 {
        return Reply::plain(0);
    }
    store(0, tv_ptr, time_of(ticks, 1_000_000))
}

pub open spec fn getres_reply(clock: u64, res_ptr: u64) -> ReplyV {
    if !is_clock(clock) {
        failure(EINVAL)
    } else if res_ptr != 0 {
        storing(0, res_ptr, bytes64(0) + bytes64(1_000_000_000u64 / HZ as u64))
    } else {
        answer(0)
    }
}

pub(crate) fn sys_clock_getres(clock: u64, res_ptr: u64) -> (r: Reply)
    ensures
        r@ == getres_reply(clock, res_ptr),
{
    if clock != CLOCK_REALTIME && clock != CLOCK_MONOTONIC && clock != CLOCK_BOOTTIME {
        return Reply::error(EINVAL);
    }
    if res_ptr == 0 {
        return Reply::plain(0);
    }
    let mut out: Vec<u8> = Vec::new();
    put64(&mut out, 0);
    put64(&mut out, 1_000_000_000 / HZ as u64);
    assert(out@ =~= bytes64(0) + bytes64(1_000_000_000u64 / HZ as u64));
    store(0, res_ptr, out)
}

pub open spec fn capped(n: int) -> u64 {
    if n > u64::MAX {
        u64::MAX
    } else {
        n as u64
    }
}

/// The tick at which a wait ends. The time is given as seconds and
/// nanoseconds, from now on or since the start; it is rounded up to whole
/// ticks, and from now on one more, so that no wait ends early.
pub open spec fn deadline_of(ptr: u64, time: Seq<u8>, relative: bool, now: u64) -> Result<u64, i64> {
    let sec = signed(le64(time, 0));
    let nsec = signed(le64(time, 8));
    if ptr == 0 || ptr + 16 > u64::MAX {
        Err(EFAULT)
    } else if time.len() < 16 {
        Err(EFAULT)
    } else if sec < 0 || nsec < 0 || nsec >= 1_000_000_000 {
        Err(EINVAL)
    } else {
        let ticks = capped(capped(sec * HZ) + (nsec * HZ + 999_999_999) / 1_000_000_000);
        if relative {
            Ok(capped(capped(now + ticks) + if sec != 0 || nsec != 0 {
                1int
            } else {
                0
            }))
        } else {
            Ok(ticks)
        }
    }
}

pub(crate) fn timespec_deadline(ptr: u64, time: &[u8], relative: bool, now: u64) -> (r: Result<u64, i64>)
    ensures
        r == deadline_of(ptr, time@, relative, now),
{
    if ptr == 0 || ptr.checked_add(16).is_none() {
        return Err(EFAULT);
    }
    if time.len() < 16 {
        return Err(EFAULT);
    }
    let sec: u64 = get64(time, 0);
    let nsec: u64 = get64(time, 8);
    if sec >= 0x8000_0000_0000_0000 || nsec >= 1_000_000_000 {
        return Err(EINVAL);
    }
    let hz: u64 = HZ as u64;
    let whole: u64 = match sec.checked_mul(hz) {
        Some(x) => x,
        None => u64::MAX,
    };
    let ticks: u64 = whole.saturating_add((nsec * hz + 999_999_999) / 1_000_000_000);
    if relative {
        let extra: u64 = if sec != 0 || nsec != 0 {
            1
        } else {
            0
        };
        Ok(now.saturating_add(ticks).saturating_add(extra))
    } else {
        Ok(ticks)
    }
}

// ---- Text from and to programs ----

/// What a string in a program's memory holds: the bytes before the first
/// zero, if that comes soon enough and they are text.
pub open spec fn c_string(b: Seq<u8>) -> Option<Seq<u8>> {
    match crate::text::first_of(b, 0, 0) {
        Some(i) if i < MAX_PATH_LEN && valid_utf8(b.take(i)) => Some(b.take(i)),
        _ => None,
    }
}

pub(crate) fn read_c_string(b: &[u8]) -> (r: Option<Vec<u8>>)
    ensures
        match c_string(b@) {
            Some(t) => r matches Some(v) && v@ == t,
            None => r is None,
        },
{
    match crate::text::split_once(b, 0) {
        Some((text, _)) => {
            proof {
                crate::text::lemma_first_of(b@, 0, 0);
            }
            if text.len() < MAX_PATH_LEN && is_utf8(text.as_slice()) {
                Some(text)
            } else {
                None
            }
        },
        None => None,
    }
}

/// What a program's output looks like on the console: itself, if it is text.
pub open spec fn console_text(b: Seq<u8>) -> Seq<u8> {
    if valid_utf8(b) {
        b
    } else {
        "linux_syscall: write: not valid UTF-8 (".spec_bytes() + decimal(b.len()) + " bytes)\n".spec_bytes()
    }
}

pub(crate) fn write_bytes_to_console(out: &mut Vec<u8>, b: &[u8])
    ensures
        final(out)@ == old(out)@ + console_text(b@),
{
    let ghost before = out@;
    if is_utf8(b) {
        push_bytes(out, b);
    } else {
        push_str(out, "linux_syscall: write: not valid UTF-8 (");
        push_decimal(out, b.len() as u64);
        push_str(out, " bytes)\n");
        assert(out@ =~= before + console_text(b@));
    }
}

/// What the console shows of several runs of output.
pub open spec fn console_texts(pieces: Seq<Seq<u8>>) -> Seq<u8>
    decreases pieces.len(),
{
    if pieces.len() == 0 {
        Seq::empty()
    } else {
        console_texts(pieces.drop_last()) + console_text(pieces.last())
    }
}

pub open spec fn total_len(pieces: Seq<Seq<u8>>) -> int
    decreases pieces.len(),
{
    if pieces.len() == 0 {
        0
    } else {
        total_len(pieces.drop_last()) + pieces.last().len()
    }
}

pub open spec fn pieces_view(s: Seq<Vec<u8>>) -> Seq<Seq<u8>> {
    s.map_values(|x: Vec<u8>| x@)
}

/// Everything goes to the console, whatever the file.
pub(crate) fn sys_writev(pieces: &Vec<Vec<u8>>) -> (r: Reply)
    ensures
        r@ == (ReplyV {
            output: console_texts(pieces_view(pieces@)),
            ..answer((total_len(pieces_view(pieces@)) % 0x1_0000_0000_0000_0000) as u64)
        }),
{
    let ghost shown = pieces_view(pieces@);
    let n: usize = pieces.len();
    let mut r = Reply::plain(0);
    let mut total: u64 = 0;
    assert(shown.take(0) =~= Seq::empty());
    for i in 0..n
        invariant
            n == pieces@.len(),
            shown == pieces_view(pieces@),
            r@ == (ReplyV { output: r@.output, ..answer(0) }),
            r@.output == console_texts(shown.take(i as int)),
            total == total_len(shown.take(i as int)) % 0x1_0000_0000_0000_0000,
            total_len(shown.take(i as int)) >= 0,
    {
        assert(shown.take(i + 1).drop_last() =~= shown.take(i as int));
        assert(shown.take(i + 1).last() == pieces@[i as int]@);
        write_bytes_to_console(&mut r.output, pieces[i].as_slice());
        total = total.wrapping_add(pieces[i].len() as u64);
    }
    assert(shown.take(n as int) =~= shown);
    r.value = total;
    r
}

/// How many bytes of randomness a call hands over: as many as are wanted and
/// could be had.
pub open spec fn getrandom_reply(available: bool, buf_ptr: u64, len: u64, random: Seq<u8>) -> ReplyV {
    let want = if len < MAX_IO_LEN as u64 {
        len as int
    } else {
        MAX_IO_LEN as int
    };
    let n = if random.len() < want {
        random.len() as int
    } else {
        want
    };
    if !available {
        failure(ENOSYS)
    } else if n == 0 {
        failure(EAGAIN)
    } else {
        storing(n as u64, buf_ptr, random.take(n))
    }
}

/// Hands over random bytes that the processor made.
pub(crate) fn sys_getrandom(available: bool, buf_ptr: u64, len: u64, random: &[u8]) -> (r: Reply)
    ensures
        r@ == getrandom_reply(available, buf_ptr, len, random@),
{
    if !available {
        return Reply::error(ENOSYS);
    }
    let want: u64 = if len < MAX_IO_LEN as u64 {
        len
    } else {
        MAX_IO_LEN as u64
    };
    let n: usize = if (random.len() as u64) < want {
        random.len()
    } else {
        want as usize
    };
    if n == 0 {
        return Reply::error(EAGAIN);
    }
    assert(random@.take(n as int) =~= random@.subrange(0, n as int));
    store(n as u64, buf_ptr, vstd::slice::slice_to_vec(vstd::slice::slice_subrange(random, 0, n)))
}


/// No wait ends early. One from now on takes at least the time asked for,
/// however much of the current tick has passed, and one until a point in time
/// does not end before it, unless that is too far off to be counted.
pub proof fn law_waits_are_not_short(ptr: u64, time: Seq<u8>, relative: bool, now: u64)
    requires
        deadline_of(ptr, time, relative, now) matches Ok(end) && end < u64::MAX,
    ensures
        ({
            let end = deadline_of(ptr, time, relative, now)->Ok_0;
            let asked = signed(le64(time, 0)) * 1_000_000_000 + signed(le64(time, 8));
            let tick = 1_000_000_000int / HZ as int;
            if !relative {
                end * tick >= asked
            } else if asked == 0 {
                end == now
            } else {
                (end - now - 1) * tick >= asked
            }
        }),
{
}
/// No wait is longer than it must be. One until a point in time ends with the
/// first tick that is not before it; one from now on takes less than two
/// ticks more than the time asked for.
pub proof fn law_waits_are_not_long(ptr: u64, time: Seq<u8>, relative: bool, now: u64)
    requires
        deadline_of(ptr, time, relative, now) matches Ok(end) && end < u64::MAX,
    ensures
        ({
            let end = deadline_of(ptr, time, relative, now)->Ok_0;
            let asked = signed(le64(time, 0)) * 1_000_000_000 + signed(le64(time, 8));
            if !relative {
                (end - 1) * 10_000_000 < asked || end == 0
            } else {
                asked != 0 ==> (end - now - 2) * 10_000_000 < asked
            }
        }),
{
}

/// A time is 16 bytes, seconds and nanoseconds. One that is not there is
/// refused with 14; a negative one, or one with more nanoseconds than a
/// second has, with 22. Any other is taken.
pub proof fn law_times_taken(ptr: u64, time: Seq<u8>, relative: bool, now: u64)
    ensures
        deadline_of(ptr, time, relative, now) == if ptr == 0 || ptr > u64::MAX - 16 || time.len() < 16 {
            Err::<u64, i64>(-14i64)
        } else if le64(time, 0) >= 0x8000_0000_0000_0000 || le64(time, 8) >= 1_000_000_000 {
            Err::<u64, i64>(-22i64)
        } else {
            Ok::<u64, i64>(deadline_of(ptr, time, relative, now)->Ok_0)
        },
{
}

} // verus!
