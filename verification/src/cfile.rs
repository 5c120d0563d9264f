//! Files as C programs know them: read into memory when they are opened, and
//! written back when they are closed.
use crate::fat16::{can_write, read_file, write_file, Fs};
use crate::task::{overwritten, readable};
use crate::volume::{content, saved, writable, Place, Volume};
use vstd::prelude::*;
use vstd::slice::{slice_subrange, slice_to_vec};

verus! {

pub struct CFile {
    pub data: Vec<u8>,
    pub pos: usize,
    pub path: Option<Vec<u8>>,
    pub dirty: bool,
    pub writable: bool,
    pub console: bool,
}

pub ghost struct CFileV {
    pub data: Seq<u8>,
    pub pos: int,
    pub path: Option<Seq<u8>>,
    pub dirty: bool,
    pub writable: bool,
    pub console: bool,
}

/// Text with everything that is no ASCII character replaced.
pub open spec fn lossy(b: Seq<u8>) -> Seq<u8>
    decreases b.len(),
{
    if b.len() == 0 {
        Seq::empty()
    } else if b.last() < 128 {
        lossy(b.drop_last()).push(b.last())
    } else {
        lossy(b.drop_last()) + seq![0xEFu8, 0xBFu8, 0xBDu8]
    }
}

pub fn bytes_to_string_lossy(bytes: &[u8]) -> (r: Vec<u8>)
    ensures
        r@ == lossy(bytes@),
{
    let mut out: Vec<u8> = Vec::new();
    let n: usize = bytes.len();
    assert(bytes@.take(0) =~= Seq::empty());
    for i in 0..n
        invariant
            n == bytes@.len(),
            out@ == lossy(bytes@.take(i as int)),
    {
        assert(bytes@.take(i + 1).drop_last() =~= bytes@.take(i as int));
        let ghost before = out@;
        if bytes[i] < 128 {
            out.push(bytes[i]);
        } else {
            out.push(0xEF);
            out.push(0xBF);
            out.push(0xBD);
            assert(out@ =~= before + seq![0xEFu8, 0xBFu8, 0xBDu8]);
        }
    }
    assert(bytes@.take(n as int) =~= bytes@);
    out
}

fn has_plus(mode: &[u8]) -> (r: bool)
    ensures
        r == mode@.contains(0x2B),
{
    let n: usize = mode.len();
    for i in 0..n
        invariant
            n == mode@.len(),
            forall|k: int| 0 <= k < i ==> mode@[k] != 0x2B,
    {
        if mode[i] == 0x2B {
            return true;
        }
    }
    false
}

/// What a file is opened as: reading needs it to be there, writing starts
/// anew, and appending starts at the end of what is there.
pub open spec fn opened_as(v: Volume, at: Place, path: Seq<u8>, mode: Seq<u8>) -> Option<CFileV> {
    let name = lossy(path);
    let there = content(v, at, name);
    let f = CFileV {
        data: Seq::empty(),
        pos: 0,
        path: Some(name),
        dirty: true,
        writable: true,
        console: false,
    };
    if mode.len() == 0 {
        None
    } else if mode[0] == 0x72 {
        match there {
            Ok(data) => Some(CFileV { data, dirty: false, writable: mode.contains(0x2B), ..f }),
            Err(_) => None,
        }
    } else if mode[0] == 0x77 {
        Some(f)
    } else if mode[0] == 0x61 {
        match there {
            Ok(data) => Some(CFileV { data, pos: data.len() as int, ..f }),
            Err(_) => Some(f),
        }
    } else {
        None
    }
}

/// Opens a file.
pub fn fopen(fs: &mut Fs, path: &[u8], mode: &[u8]) -> (r: Option<CFile>)
    requires
        old(fs).wf(),
    ensures
        final(fs).only_read(*old(fs)),
        match opened_as(old(fs).volume(), old(fs).place(), path@, mode@) {
            Some(f) => r matches Some(x) && x@ == f,
            None => r is None,
        },
{
    let name = bytes_to_string_lossy(path);
    let plus: bool = has_plus(mode);
    if mode.len() == 0 {
        return None;
    }
    let base: u8 = mode[0];
    if base == 0x72 {
        match read_file(fs, name.as_slice()) {
            Ok(data) => Some(
                CFile { data, pos: 0, path: Some(name), dirty: false, writable: plus, console: false },
            ),
            Err(_) => None,
        }
    } else if base == 0x77 {
        let data: Vec<u8> = Vec::new();
        assert(data@ =~= Seq::empty());
        Some(CFile { data, pos: 0, path: Some(name), dirty: true, writable: true, console: false })
    } else if base == 0x61 {
        let data: Vec<u8> = match read_file(fs, name.as_slice()) {
            Ok(data) => data,
            Err(_) => Vec::new(),
        };
        proof {
            if content(old(fs).volume(), old(fs).place(), lossy(path@)) is Err {
                assert(data@ =~= Seq::empty());
            }
        }
        let pos: usize = data.len();
        Some(CFile { data, pos, path: Some(name), dirty: true, writable: true, console: false })
    } else {
        None
    }
}

pub const SEEK_SET: i32 = 0;

pub const SEEK_CUR: i32 = 1;

pub const SEEK_END: i32 = 2;

/// How many whole items of `size` bytes there are to read.
pub open spec fn items_left(f: CFileV, size: int, nmemb: int) -> int {
    let left = readable(f.data.len() as int, f.pos, size * nmemb);
    if size <= 0 || nmemb <= 0 || f.console {
        0
    } else {
        left / size
    }
}

/// How far the end of the line is, if it is within `cap` bytes.
pub open spec fn line_length(data: Seq<u8>, pos: int, cap: int) -> int
    decreases data.len() - pos,
{
    if cap <= 0 || pos >= data.len() {
        0
    } else if data[pos] == 0x0A {
        1
    } else {
        1 + line_length(data, pos + 1, cap - 1)
    }
}

impl CFileV {
    /// What reading items does: how many are read, and their bytes.
    pub open spec fn items_read(self, size: int, nmemb: int, count: int, bytes: Seq<u8>, after: CFileV) -> bool {
        let n = items_left(self, size, nmemb);
        &&& count == n
        &&& bytes == if n > 0 {
            self.data.subrange(self.pos, self.pos + n * size)
        } else {
            Seq::empty()
        }
        &&& after == (CFileV { pos: self.pos + n * size, ..self })
    }

    /// What writing items does: how many are written, and what is shown.
    pub open spec fn items_written(
        self,
        size: int,
        nmemb: int,
        bytes: Seq<u8>,
        count: int,
        shown: Seq<u8>,
        after: CFileV,
    ) -> bool {
        if size == 0 || nmemb == 0 || !self.writable {
            count == 0 && shown == Seq::<u8>::empty() && after == self
        } else if self.console {
            count == nmemb && shown == lossy(bytes) && after == self
        } else {
            &&& count == nmemb
            &&& shown == Seq::<u8>::empty()
            &&& after == (CFileV {
                data: overwritten(self.data, self.pos, bytes),
                pos: self.pos + bytes.len(),
                dirty: true,
                ..self
            })
        }
    }

    /// What moving to another place does.
    pub open spec fn sought(self, offset: int, whence: int, r: int, after: CFileV) -> bool {
        let base = if whence == SEEK_SET {
            0
        } else if whence == SEEK_CUR {
            self.pos
        } else {
            self.data.len() as int
        };
        let next = base + offset;
        if !(0 <= whence <= 2) || next < 0 || next > i64::MAX || next > usize::MAX {
            r == -1 && after == self
        } else {
            r == 0 && after == (CFileV { pos: next, ..self })
        }
    }

    /// What reading a line does.
    pub open spec fn line_read(self, size: int, line: Option<Seq<u8>>, after: CFileV) -> bool {
        if size <= 0 || self.console || self.pos >= self.data.len() {
            line is None && after == self
        } else {
            let n = line_length(self.data, self.pos, size - 1);
            line == Some(self.data.subrange(self.pos, self.pos + n)) && after == (CFileV { pos: self.pos + n, ..self })
        }
    }
}

impl CFile {
    pub open spec fn view(self) -> CFileV {
        CFileV {
            data: self.data@,
            pos: self.pos as int,
            path: match self.path {
                Some(p) => Some(p@),
                None => None,
            },
            dirty: self.dirty,
            writable: self.writable,
            console: self.console,
        }
    }

    /// A file that writes to the console.
    pub fn to_console() -> (r: CFile)
        ensures
            r@ == (CFileV {
                data: Seq::empty(),
                pos: 0,
                path: None,
                dirty: false,
                writable: true,
                console: true,
            }),
    {
        let r = CFile {
            data: Vec::new(),
            pos: 0,
            path: None,
            dirty: false,
            writable: true,
            console: true,
        };
        assert(r@.data =~= Seq::empty());
        r
    }

    /// Closes a file: one that was changed is written to the disk. Returns 0,
    /// or -1 if that fails.
    pub fn fclose(self, fs: &mut Fs) -> (r: i32)
        requires
            old(fs).wf(),
        ensures
            ({
                let f = self@;
                let v = old(fs).volume();
                let at = old(fs).place();
                match f.path {
                    Some(path) if !f.console && f.dirty && f.writable => if writable(v, at, path, f.data) {
                        &&& final(fs).only_disk(*old(fs))
                        &&& final(fs).disk@ == saved(v, at, path, f.data).0
                        &&& r == if saved(v, at, path, f.data).1 is Ok {
                            0int
                        } else {
                            -1
                        }
                    } else {
                        final(fs).only_read(*old(fs)) && r == -1
                    },
                    _ => *final(fs) == *old(fs) && r == 0,
                }
            }),
    {
        if self.console {
            return 0;
        }
        if self.dirty && self.writable {
            if let Some(path) = &self.path {
                if !can_write(fs, path.as_slice(), self.data.as_slice()) {
                    return -1;
                }
                if write_file(fs, path.as_slice(), self.data.as_slice()).is_err() {
                    return -1;
                }
            }
        }
        0
    }

    /// Reads up to `nmemb` items of `size` bytes each, and only whole ones.
    /// Returns how many, and their bytes.
    pub fn fread(&mut self, size: usize, nmemb: usize) -> (r: (usize, Vec<u8>))
        ensures
            old(self)@.items_read(size as int, nmemb as int, r.0 as int, r.1@, final(self)@),
    {
        if size == 0 || nmemb == 0 || self.console {
            let none: Vec<u8> = Vec::new();
            assert(none@ =~= Seq::empty());
            let ghost n = items_left(self@, size as int, nmemb as int);
            assert(n * size == 0) by (nonlinear_arith)
                requires
                    n == 0,
            ;
            return (0, none);
        }
        let len: usize = self.data.len();
        let available: usize = if self.pos < len {
            len - self.pos
        } else {
            0
        };
        let requested: u128 = widened_product(size, nmemb);
        let to_copy: usize = if (available as u128) <= requested {
            available
        } else {
            requested as usize
        };
        let elems: usize = to_copy / size;
        proof {
            assert(size * nmemb >= 0) by (nonlinear_arith);
            vstd::arithmetic::div_mod::lemma_fundamental_div_mod(to_copy as int, size as int);
            assert(elems * size <= to_copy) by (nonlinear_arith)
                requires
                    to_copy == size * elems + to_copy % size,
                    to_copy % size >= 0,
            ;
            assert(elems * size >= 0) by (nonlinear_arith);
            if elems > 0 {
                assert(elems * size > 0) by (nonlinear_arith)
                    requires
                        elems > 0,
                        size > 0,
                ;
            } else {
                assert(elems * size == 0) by (nonlinear_arith)
                    requires
                        elems == 0,
                ;
            }
        }
        if elems == 0 {
            let none: Vec<u8> = Vec::new();
            assert(none@ =~= Seq::empty());
            return (0, none);
        }
        let byte_len: usize = elems * size;
        let part = slice_to_vec(slice_subrange(self.data.as_slice(), self.pos, self.pos + byte_len));
        self.pos = self.pos + byte_len;
        (elems, part)
    }

    /// Writes `bytes`, which are `nmemb` items of `size` bytes each. Returns
    /// how many items were written, and what goes to the console.
    pub fn fwrite(&mut self, size: usize, nmemb: usize, bytes: &[u8]) -> (r: (usize, Vec<u8>))
        requires
            old(self).pos + bytes@.len() <= usize::MAX,
        ensures
            old(self)@.items_written(size as int, nmemb as int, bytes@, r.0 as int, r.1@, final(self)@),
    {
        let none: Vec<u8> = Vec::new();
        assert(none@ =~= Seq::empty());
        if size == 0 || nmemb == 0 || !self.writable {
            return (0, none);
        }
        if self.console {
            return (nmemb, bytes_to_string_lossy(bytes));
        }
        put(&mut self.data, self.pos, bytes);
        self.pos = self.pos + bytes.len();
        self.dirty = true;
        (nmemb, none)
    }

    /// Moves to another place in the file. Returns 0, or -1 if there is no
    /// such place.
    pub fn fseek(&mut self, offset: i64, whence: i32) -> (r: i32)
        ensures
            old(self)@.sought(offset as int, whence as int, r as int, final(self)@),
    {
        let base: i128 = if whence == SEEK_SET {
            0
        } else if whence == SEEK_CUR {
            self.pos as i128
        } else if whence == SEEK_END {
            self.data.len() as i128
        } else {
            return -1;
        };
        let next: i128 = base + offset as i128;
        if next < 0 || next > i64::MAX as i128 || next > usize::MAX as i128 {
            return -1;
        }
        self.pos = next as usize;
        0
    }

    /// Where the next read or write starts.
    pub fn ftell(&self) -> (r: usize)
        ensures
            r == self@.pos,
    {
        self.pos
    }

    pub fn rewind(&mut self)
        ensures
            final(self)@ == (CFileV { pos: 0, ..old(self)@ }),
    {
        self.pos = 0;
    }

    /// Whether there is nothing left to read.
    pub fn feof(&self) -> (r: bool)
        ensures
            r == (!self@.console && self@.pos >= self@.data.len()),
    {
        !self.console && self.pos >= self.data.len()
    }

    /// Writes a text. Returns 0, or -1 if it could not be written, and what
    /// goes to the console.
    pub fn fputs(&mut self, text: &[u8]) -> (r: (i32, Vec<u8>))
        requires
            old(self).pos + text@.len() <= usize::MAX,
        ensures
            ({
                let f = old(self)@;
                if text@.len() == 0 {
                    r.0 == 0 && r.1@ == Seq::<u8>::empty() && final(self)@ == f
                } else if !f.writable {
                    r.0 == -1 && r.1@ == Seq::<u8>::empty() && final(self)@ == f
                } else if f.console {
                    r.0 == 0 && r.1@ == lossy(text@) && final(self)@ == f
                } else {
                    &&& r.0 == 0
                    &&& r.1@ == Seq::<u8>::empty()
                    &&& final(self)@ == (CFileV {
                        data: overwritten(f.data, f.pos, text@),
                        pos: f.pos + text@.len(),
                        dirty: true,
                        ..f
                    })
                }
            }),
    {
        let n: usize = text.len();
        let (done, shown) = self.fwrite(1, n, text);
        if done == n {
            (0, shown)
        } else {
            (-1, shown)
        }
    }

    /// Reads a line, with its line break, if there is one within `size` bytes
    /// less one. `None` at the end of the file.
    pub fn fgets(&mut self, size: i32) -> (r: Option<Vec<u8>>)
        ensures
            old(self)@.line_read(
                size as int,
                match r {
                    Some(v) => Some(v@),
                    None => None,
                },
                final(self)@,
            ),
    {
        if size <= 0 || self.console || self.pos >= self.data.len() {
            return None;
        }
        let start: usize = self.pos;
        let len: usize = self.data.len();
        let cap: usize = (size - 1) as usize;
        let mut n: usize = 0;
        let mut over: bool = false;
        while !over && n < cap && start + n < len
            invariant
                len == self.data@.len(),
                start < len,
                start + n <= len,
                n <= cap,
                line_length(self.data@, start as int, cap as int) == n + if over {
                    0
                } else {
                    line_length(self.data@, start + n, cap - n)
                },
            decreases
                len - start - n,
                (if over {
                    0int
                } else {
                    1int
                }),
        {
            if self.data[start + n] == 0x0A {
                over = true;
            }
            n += 1;
        }
        let line = slice_to_vec(slice_subrange(self.data.as_slice(), start, start + n));
        self.pos = start + n;
        Some(line)
    }
}

fn widened_product(a: usize, b: usize) -> (r: u128)
    ensures
        r == a * b,
{
    proof {
        assert(a * b <= 0xFFFF_FFFF_FFFF_FFFF * 0xFFFF_FFFF_FFFF_FFFF) by (nonlinear_arith)
            requires
                a <= 0xFFFF_FFFF_FFFF_FFFF,
                b <= 0xFFFF_FFFF_FFFF_FFFF,
        ;
        assert(0 <= a * b) by (nonlinear_arith);
    }
    (a as u128) * (b as u128)
}

fn put(data: &mut Vec<u8>, pos: usize, bytes: &[u8])
    requires
        pos + bytes@.len() <= usize::MAX,
    ensures
        final(data)@ == overwritten(old(data)@, pos as int, bytes@),
{
    let ghost before = data@;
    let n: usize = bytes.len();
    let end: usize = pos + n;
    while data.len() < end
        invariant
            before.len() <= data@.len(),
            data@.len() <= end || data@.len() == before.len(),
            forall|k: int|
                0 <= k < data@.len() ==> #[trigger] data@[k] == if k < before.len() {
                    before[k]
                } else {
                    0u8
                },
        decreases end - data@.len(),
    {
        data.push(0);
    }
    let ghost grown = data@;
    for i in 0..n
        invariant
            n == bytes@.len(),
            pos + n <= grown.len(),
            pos + n <= usize::MAX,
            data@.len() == grown.len(),
            forall|k: int|
                0 <= k < grown.len() ==> #[trigger] data@[k] == if pos <= k < pos + i {
                    bytes@[k - pos]
                } else {
                    grown[k]
                },
    {
        data[pos + i] = bytes[i];
    }
    assert(data@ =~= overwritten(before, pos as int, bytes@));
}

/// What is written to a file can be read back from where it was written.
pub proof fn law_write_seek_read(f: CFileV, bytes: Seq<u8>)
    requires
        f.writable,
        !f.console,
        0 <= f.pos,
        bytes.len() > 0,
    ensures
        ({
            let g = CFileV { data: overwritten(f.data, f.pos, bytes), ..f };
            &&& items_left(g, 1, bytes.len() as int) == bytes.len()
            &&& g.data.subrange(f.pos, f.pos + bytes.len()) == bytes
        }),
{
    let g = CFileV { data: overwritten(f.data, f.pos, bytes), ..f };
    assert(g.data.subrange(f.pos, f.pos + bytes.len()) =~= bytes);
    assert(bytes.len() as int / 1 == bytes.len());
}

/// Moving goes to a place counted from the start (0), from where the file is
/// (1) or from its end (2). A place before the start, or another way to
/// count, is refused, and the file stays where it is.
pub proof fn law_seek(f: CFileV, offset: int, whence: int, r: int, after: CFileV)
    requires
        f.sought(offset, whence, r, after),
        0 <= f.pos + offset <= i64::MAX && f.pos + offset <= usize::MAX || whence != 1,
        f.data.len() + offset <= i64::MAX && f.data.len() + offset <= usize::MAX,
        offset <= i64::MAX && offset <= usize::MAX,
    ensures
        after == (CFileV { pos: after.pos, ..f }),
        r == 0 && whence == 0 ==> after.pos == offset,
        r == 0 && whence == 1 ==> after.pos - f.pos == offset,
        r == 0 && whence == 2 ==> after.pos - f.data.len() == offset,
        r == 0 ==> 0 <= whence <= 2 && after.pos >= 0,
        r != 0 ==> r == -1 && after == f,
        whence == 0 && offset >= 0 ==> r == 0,
        whence == 1 ==> r == 0,
        whence == 2 && f.data.len() + offset >= 0 ==> r == 0,
{
}

/// What is read are the bytes from where the file is, as many whole items as
/// there are, and no more than were asked for; the file is then behind them.
pub proof fn law_read(f: CFileV, size: int, nmemb: int, count: int, bytes: Seq<u8>, after: CFileV)
    requires
        f.items_read(size, nmemb, count, bytes, after),
        !f.console,
        0 <= f.pos,
        0 < size,
        0 <= nmemb,
    ensures
        0 <= count <= nmemb,
        bytes.len() == count * size,
        forall|i: int| 0 <= i < bytes.len() ==> #[trigger] bytes[i] == f.data[f.pos + i],
        f.pos <= f.data.len() ==> after.pos <= f.data.len(),
        count < nmemb ==> f.pos + (count + 1) * size > f.data.len(),
        after == (CFileV { pos: f.pos + bytes.len(), ..f }),
{
    let want = size * nmemb;
    let left = readable(f.data.len() as int, f.pos, want);
    vstd::arithmetic::div_mod::lemma_fundamental_div_mod(left, size);
    assert(want >= 0) by (nonlinear_arith)
        requires
            want == size * nmemb,
            size > 0,
            nmemb >= 0,
    ;
    let n = left / size;
    assert(n * size == left - left % size) by (nonlinear_arith)
        requires
            left == size * n + left % size,
    ;
    assert(0 <= left % size < size);
    assert(0 <= n) by (nonlinear_arith)
        requires
            n * size == left - left % size,
            0 <= left,
            0 <= left % size < size,
    ;
    assert(n <= nmemb) by (nonlinear_arith)
        requires
            n * size <= left,
            left <= size * nmemb,
            size > 0,
    ;
    assert((n + 1) * size == n * size + size) by (nonlinear_arith);
    assert(n < nmemb ==> (n + 1) * size <= want) by (nonlinear_arith)
        requires
            want == size * nmemb,
            size > 0,
    ;
    assert(n == 0 ==> n * size == 0) by (nonlinear_arith);
    if nmemb == 0 {
        assert(count == 0);
        assert(count * size == 0) by (nonlinear_arith)
            requires
                count == 0,
        ;
    }
}

proof fn lemma_line(data: Seq<u8>, pos: int, cap: int)
    requires
        0 <= pos,
        0 <= cap,
    ensures
        ({
            let n = line_length(data, pos, cap);
            &&& 0 <= n <= cap
            &&& pos <= data.len() ==> pos + n <= data.len()
            &&& forall|i: int| 0 <= i < n - 1 ==> #[trigger] data[pos + i] != 0x0A
            &&& n < cap && pos + n < data.len() ==> n > 0 && data[pos + n - 1] == 0x0A
        }),
    decreases cap,
{
    if cap > 0 && pos < data.len() && data[pos] != 0x0A {
        lemma_line(data, pos + 1, cap - 1);
        let n = line_length(data, pos, cap);
        assert forall|i: int| 0 <= i < n - 1 implies #[trigger] data[pos + i] != 0x0A by {
            if i > 0 {
                assert(data[pos + 1 + (i - 1)] != 0x0A);
            }
        }
    }
}

/// A line that is read ends with the first line break, which it has, or where
/// `size` bytes less one have been read, or with the file.
pub proof fn law_line(f: CFileV, size: int, line: Option<Seq<u8>>, after: CFileV)
    requires
        f.line_read(size, line, after),
        !f.console,
        0 < size,
        0 <= f.pos,
    ensures
        line is None <==> f.pos >= f.data.len(),
        line is None ==> after == f,
        line matches Some(v) ==> {
            &&& v.len() <= size - 1
            &&& forall|i: int| 0 <= i < v.len() ==> #[trigger] v[i] == f.data[f.pos + i]
            &&& forall|i: int| 0 <= i < v.len() - 1 ==> #[trigger] v[i] != 0x0A
            &&& v.len() == size - 1 || f.pos + v.len() == f.data.len() || v.len() > 0 && v.last() == 0x0A
            &&& after == (CFileV { pos: f.pos + v.len(), ..f })
        },
{
    lemma_line(f.data, f.pos, size - 1);
    if let Some(v) = line {
        assert forall|i: int| 0 <= i < v.len() - 1 implies #[trigger] v[i] != 0x0A by {
            assert(v[i] == f.data[f.pos + i]);
        }
    }
}

/// What a file holds after a write: the bytes where it was, zeros in a gap
/// before them, and what it held everywhere else.
pub proof fn law_written(
    f: CFileV,
    size: int,
    nmemb: int,
    bytes: Seq<u8>,
    count: int,
    shown: Seq<u8>,
    after: CFileV,
    i: int,
)
    requires
        f.items_written(size, nmemb, bytes, count, shown, after),
        f.writable,
        !f.console,
        0 <= f.pos,
        0 < size,
        0 < nmemb,
    ensures
        count == nmemb,
        shown.len() == 0,
        after == (CFileV { data: after.data, pos: f.pos + bytes.len(), dirty: true, ..f }),
        f.pos <= i < f.pos + bytes.len() ==> i < after.data.len() && after.data[i] == bytes[i - f.pos],
        0 <= i < f.data.len() && !(f.pos <= i < f.pos + bytes.len()) ==> i < after.data.len() && after.data[i]
            == f.data[i],
        f.data.len() <= i < f.pos && i < after.data.len() ==> after.data[i] == 0,
        after.data.len() <= f.data.len() || after.data.len() <= f.pos + bytes.len(),
{
}

/// A file opens for reading (r) at its start if it is there, and can be
/// written too if asked (+). For writing (w) it opens empty, and for adding
/// (a) behind what it has.
pub proof fn law_open(v: Volume, at: Place, path: Seq<u8>, mode: Seq<u8>)
    requires
        mode.len() > 0,
    ensures
        mode[0] == 0x72 ==> match content(v, at, lossy(path)) {
            Err(_) => opened_as(v, at, path, mode) is None,
            Ok(data) => opened_as(v, at, path, mode) matches Some(f) && f.data == data && f.pos == 0 && !f.dirty && !f.console
                && f.writable == mode.contains(0x2B) && f.path == Some(lossy(path)),
        },
        mode[0] == 0x77 ==> (opened_as(v, at, path, mode) matches Some(f) && f.data.len() == 0 && f.pos == 0 && f.writable
            && f.dirty && !f.console && f.path == Some(lossy(path))),
        mode[0] == 0x61 ==> (opened_as(v, at, path, mode) matches Some(f) && f.pos == f.data.len() && f.writable && f.dirty
            && !f.console && f.path == Some(lossy(path)) && (content(v, at, lossy(path)) matches Ok(data) ==> f.data
            == data) && (content(v, at, lossy(path)) is Err ==> f.data.len() == 0)),
        mode[0] != 0x72 && mode[0] != 0x77 && mode[0] != 0x61 ==> opened_as(v, at, path, mode) is None,
{
}

} // verus!
