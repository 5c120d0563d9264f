//! ELF64 files for x86_64: program headers, and the dynamic section with its
//! relocations, dependencies and exported symbols.
use crate::le::{get16, get32, get64, le16, le32, le64};
use crate::loader::{ExternReloc, ExternV, Format, Image, ImageV, Segment, SegmentV};
use crate::loader::{exports_view, externs_view, names_view, segments_view, text_view};
use crate::text::is_utf8;
use vstd::prelude::*;
use vstd::slice::{slice_subrange, slice_to_vec};
use vstd::utf8::valid_utf8;

verus! {

pub const PT_LOAD: u32 = 1;

pub const PT_DYNAMIC: u32 = 2;

pub const PT_INTERP: u32 = 3;

pub const DT_NULL: u64 = 0;

pub const DT_NEEDED: u64 = 1;

pub const DT_PLTRELSZ: u64 = 2;

pub const DT_HASH: u64 = 4;

pub const DT_STRTAB: u64 = 5;

pub const DT_SYMTAB: u64 = 6;

pub const DT_RELA: u64 = 7;

pub const DT_RELASZ: u64 = 8;

pub const DT_JMPREL: u64 = 23;

pub const DT_RELRSZ: u64 = 35;

pub const DT_RELR: u64 = 36;

pub const DT_RELRENT: u64 = 37;

pub const R_X86_64_64: u32 = 1;

pub const R_X86_64_GLOB_DAT: u32 = 6;

pub const R_X86_64_JUMP_SLOT: u32 = 7;

pub const R_X86_64_RELATIVE: u32 = 8;

pub const R_X86_64_IRELATIVE: u32 = 37;

/// Where a position-independent executable is loaded.
pub const PIE_BASE: u64 = 0x0000_0048_0000_0000;

pub const TRUNCATED: &'static str = "loader: file too short (truncated header)";

/// The integer at `off`, if the file is long enough.
pub open spec fn at16(b: Seq<u8>, off: int) -> Result<u16, &'static str> {
    if 0 <= off && off + 2 <= b.len() {
        Ok(le16(b, off))
    } else {
        Err(TRUNCATED)
    }
}

pub open spec fn at32(b: Seq<u8>, off: int) -> Result<u32, &'static str> {
    if 0 <= off && off + 4 <= b.len() {
        Ok(le32(b, off))
    } else {
        Err(TRUNCATED)
    }
}

pub open spec fn at64(b: Seq<u8>, off: int) -> Result<u64, &'static str> {
    if 0 <= off && off + 8 <= b.len() {
        Ok(le64(b, off))
    } else {
        Err(TRUNCATED)
    }
}

/// The offsets that the readers accept; every sum of a 64-bit offset and a
/// small displacement is one.
pub const FAR: u128 = 0x100_0000_0000_0000_0000;

pub(crate) fn read_u16(bytes: &[u8], off: u128) -> (r: Result<u16, &'static str>)
    requires
        off <= FAR,
    ensures
        r == at16(bytes@, off as int),
{
    if off + 2 <= bytes.len() as u128 {
        Ok(get16(bytes, off as usize))
    } else {
        Err(TRUNCATED)
    }
}

pub(crate) fn read_u32(bytes: &[u8], off: u128) -> (r: Result<u32, &'static str>)
    requires
        off <= FAR,
    ensures
        r == at32(bytes@, off as int),
{
    if off + 4 <= bytes.len() as u128 {
        Ok(get32(bytes, off as usize))
    } else {
        Err(TRUNCATED)
    }
}

pub(crate) fn read_u64(bytes: &[u8], off: u128) -> (r: Result<u64, &'static str>)
    requires
        off <= FAR,
    ensures
        r == at64(bytes@, off as int),
{
    if off + 8 <= bytes.len() as u128 {
        Ok(get64(bytes, off as usize))
    } else {
        Err(TRUNCATED)
    }
}

/// The position of the first zero byte.
pub open spec fn first_nul(s: Seq<u8>) -> Option<int>
    decreases s.len(),
{
    if s.len() == 0 {
        None
    } else if s[0] == 0 {
        Some(0)
    } else {
        match first_nul(s.drop_first()) {
            Some(i) => Some(i + 1),
            None => None,
        }
    }
}

fn find_nul(s: &[u8]) -> (r: Option<usize>)
    ensures
        match r {
            Some(i) => first_nul(s@) == Some(i as int) && i < s@.len(),
            None => first_nul(s@) is None,
        },
{
    let n: usize = s.len();
    assert(s@.skip(0) =~= s@);
    for i in 0..n
        invariant
            n == s@.len(),
            first_nul(s@) == match first_nul(s@.skip(i as int)) {
                Some(k) => Some(k + i),
                None => None,
            },
    {
        assert(s@.skip(i as int)[0] == s@[i as int]);
        assert(s@.skip(i as int).drop_first() =~= s@.skip(i + 1));
        if s[i] == 0 {
            return Some(i);
        }
    }
    None
}

/// The zero-terminated text at `off`.
pub open spec fn text_at(b: Seq<u8>, off: int) -> Result<Seq<u8>, &'static str> {
    if off > b.len() {
        Err("loader: dynamic string table entry points outside the file")
    } else {
        match first_nul(b.skip(off)) {
            None => Err("loader: unterminated string in dynamic string/symbol table"),
            Some(n) => if valid_utf8(b.skip(off).take(n)) {
                Ok(b.skip(off).take(n))
            } else {
                Err("loader: dynamic string/symbol table entry isn't valid UTF-8")
            },
        }
    }
}

fn read_cstr(bytes: &[u8], off: u128) -> (r: Result<Vec<u8>, &'static str>)
    ensures
        match text_at(bytes@, off as int) {
            Ok(s) => r matches Ok(v) && v@ == s,
            Err(e) => r == Err::<Vec<u8>, &'static str>(e),
        },
{
    let n: usize = bytes.len();
    if off > n as u128 {
        return Err("loader: dynamic string table entry points outside the file");
    }
    let rest = slice_subrange(bytes, off as usize, n);
    assert(rest@ =~= bytes@.skip(off as int));
    match find_nul(rest) {
        None => Err("loader: unterminated string in dynamic string/symbol table"),
        Some(len) => {
            let text = slice_subrange(rest, 0, len);
            assert(text@ =~= rest@.take(len as int));
            if is_utf8(text) {
                Ok(slice_to_vec(text))
            } else {
                Err("loader: dynamic string/symbol table entry isn't valid UTF-8")
            }
        },
    }
}

/// A loaded stretch of the file: its address, its offset and its length in
/// the file.
pub type Load = (u64, u64, u64);

/// Where in the file the byte at `vaddr` comes from, by the first of the
/// stretches that holds it.
pub open spec fn offset_of(loads: Seq<Load>, vaddr: u64) -> Option<int>
    decreases loads.len(),
{
    if loads.len() == 0 {
        None
    } else {
        let (pv, po, pf) = loads[0];
        if vaddr >= pv && vaddr < pv + pf {
            Some(po + (vaddr - pv))
        } else {
            offset_of(loads.drop_first(), vaddr)
        }
    }
}

fn vaddr_to_file_offset(loads: &Vec<Load>, vaddr: u64) -> (r: Option<u128>)
    ensures
        match r {
            Some(o) => offset_of(loads@, vaddr) == Some(o as int) && o <= 0x2_0000_0000_0000_0000,
            None => offset_of(loads@, vaddr) is None,
        },
{
    let n: usize = loads.len();
    assert(loads@.skip(0) =~= loads@);
    for i in 0..n
        invariant
            n == loads@.len(),
            offset_of(loads@, vaddr) == offset_of(loads@.skip(i as int), vaddr),
    {
        assert(loads@.skip(i as int)[0] == loads@[i as int]);
        assert(loads@.skip(i as int).drop_first() =~= loads@.skip(i + 1));
        let (pv, po, pf) = loads[i];
        if vaddr >= pv && vaddr - pv < pf {
            return Some(po as u128 + (vaddr - pv) as u128);
        }
    }
    None
}

// ---- Program headers ----

/// What the program headers say, as far as they have been read.
pub ghost struct HeadersV {
    pub segments: Seq<SegmentV>,
    pub loads: Seq<Load>,
    pub dynamic: Option<(u64, u64)>,
    pub interp: Option<Seq<u8>>,
}

/// What one more program header, at `ph`, adds.
pub open spec fn header_read(b: Seq<u8>, x: HeadersV, ph: int, bias: u64) -> Result<HeadersV, &'static str> {
    if ph + 4 > b.len() {
        Err(TRUNCATED)
    } else if le32(b, ph) == PT_INTERP {
        if ph + 40 > b.len() {
            Err(TRUNCATED)
        } else {
            let start = le64(b, ph + 8) as int;
            let end = start + le64(b, ph + 32);
            let raw = b.subrange(start, end);
            let text = match first_nul(raw) {
                Some(n) => raw.take(n),
                None => raw,
            };
            if end > b.len() {
                Err("loader: PT_INTERP program header points outside the file")
            } else if !valid_utf8(text) {
                Err("loader: PT_INTERP path isn't valid UTF-8")
            } else {
                Ok(HeadersV { interp: Some(text), ..x })
            }
        }
    } else if le32(b, ph) == PT_LOAD {
        if ph + 48 > b.len() {
            Err(TRUNCATED)
        } else {
            let flags = le32(b, ph + 4);
            let start = le64(b, ph + 8);
            let vaddr = le64(b, ph + 16);
            let size = le64(b, ph + 32);
            let mem = le64(b, ph + 40);
            if size > mem {
                Err("loader: ELF PT_LOAD segment's file size exceeds its memory size")
            } else if start + size > b.len() {
                Err("loader: ELF program header points outside the file")
            } else {
                Ok(
                    HeadersV {
                        segments: x.segments.push(
                            SegmentV {
                                vaddr: vaddr.wrapping_add(bias),
                                mem_size: mem,
                                writable: flags / 2 % 2 == 1,
                                bytes: b.subrange(start as int, start + size),
                            },
                        ),
                        loads: x.loads.push((vaddr, start, size)),
                        ..x
                    },
                )
            }
        }
    } else if le32(b, ph) == PT_DYNAMIC {
        if ph + 40 > b.len() {
            Err(TRUNCATED)
        } else {
            Ok(HeadersV { dynamic: Some((le64(b, ph + 8), le64(b, ph + 32))), ..x })
        }
    } else {
        Ok(x)
    }
}

/// What the first `n` program headers say.
pub open spec fn headers_read(b: Seq<u8>, off: int, size: int, n: int, bias: u64) -> Result<
    HeadersV,
    &'static str,
>
    decreases n,
{
    if n <= 0 {
        Ok(HeadersV { segments: Seq::empty(), loads: Seq::empty(), dynamic: None, interp: None })
    } else {
        match headers_read(b, off, size, n - 1, bias) {
            Err(e) => Err(e),
            Ok(x) => header_read(b, x, off + (n - 1) * size, bias),
        }
    }
}

struct Headers {
    segments: Vec<Segment>,
    loads: Vec<Load>,
    dynamic: Option<(u64, u64)>,
    interp: Option<Vec<u8>>,
}

impl Headers {
    spec fn view(self) -> HeadersV {
        HeadersV {
            segments: segments_view(self.segments@),
            loads: self.loads@,
            dynamic: self.dynamic,
            interp: text_view(self.interp),
        }
    }

    /// Takes one more program header, at `ph`, into account.
    fn read(&mut self, bytes: &[u8], ph: u128, bias: u64) -> (r: Result<(), &'static str>)
        requires
            ph <= FAR - 64,
        ensures
            match header_read(bytes@, old(self)@, ph as int, bias) {
                Ok(x) => r is Ok && final(self)@ == x,
                Err(e) => r == Err::<(), &'static str>(e),
            },
    {
        let n: u128 = bytes.len() as u128;
        let kind: u32 = match read_u32(bytes, ph) {
            Ok(k) => k,
            Err(e) => {
                return Err(e);
            },
        };
        if kind == PT_INTERP {
            if ph + 40 > n {
                return Err(TRUNCATED);
            }
            let at: usize = ph as usize;
            let start: u64 = get64(bytes, at + 8);
            let size: u64 = get64(bytes, at + 32);
            if start as u128 + size as u128 > n {
                return Err("loader: PT_INTERP program header points outside the file");
            }
            let raw = slice_subrange(bytes, start as usize, (start + size) as usize);
            let text = match find_nul(raw) {
                Some(len) => slice_subrange(raw, 0, len),
                None => raw,
            };
            let ghost want = match first_nul(raw@) {
                Some(k) => raw@.take(k),
                None => raw@,
            };
            assert(text@ =~= want);
            if !is_utf8(text) {
                return Err("loader: PT_INTERP path isn't valid UTF-8");
            }
            self.interp = Some(slice_to_vec(text));
        } else if kind == PT_LOAD {
            if ph + 48 > n {
                return Err(TRUNCATED);
            }
            let at: usize = ph as usize;
            let flags: u32 = get32(bytes, at + 4);
            let start: u64 = get64(bytes, at + 8);
            let vaddr: u64 = get64(bytes, at + 16);
            let size: u64 = get64(bytes, at + 32);
            let mem: u64 = get64(bytes, at + 40);
            if size > mem {
                return Err("loader: ELF PT_LOAD segment's file size exceeds its memory size");
            }
            if start as u128 + size as u128 > n {
                return Err("loader: ELF program header points outside the file");
            }
            let data: Vec<u8> = slice_to_vec(
                slice_subrange(bytes, start as usize, (start + size) as usize),
            );
            let ghost was = self.segments@;
            self.segments.push(
                Segment {
                    vaddr: vaddr.wrapping_add(bias),
                    mem_size: mem,
                    writable: flags / 2 % 2 == 1,
                    file_bytes: data,
                },
            );
            assert(segments_view(self.segments@) =~= segments_view(was).push(self.segments@.last()@));
            self.loads.push((vaddr, start, size));
        } else if kind == PT_DYNAMIC {
            if ph + 40 > n {
                return Err(TRUNCATED);
            }
            let at: usize = ph as usize;
            self.dynamic = Some((get64(bytes, at + 8), get64(bytes, at + 32)));
        }
        Ok(())
    }

    /// Reads all program headers.
    fn read_all(bytes: &[u8], off: u64, size: u16, count: u16, bias: u64) -> (r: Result<
        Headers,
        &'static str,
    >)
        ensures
            match headers_read(bytes@, off as int, size as int, count as int, bias) {
                Ok(x) => r matches Ok(h) && h@ == x,
                Err(e) => r matches Err(y) && y == e,
            },
    {
        let mut x = Headers { segments: Vec::new(), loads: Vec::new(), dynamic: None, interp: None };
        assert(x@.segments =~= Seq::empty());
        for i in 0..count
            invariant
                headers_read(bytes@, off as int, size as int, i as int, bias) == Ok::<
                    HeadersV,
                    &'static str,
                >(x@),
        {
            assert(0 <= i * size <= 0xFFFF * 0xFFFF) by (nonlinear_arith)
                requires
                    0 <= i <= 0xFFFF,
                    0 <= size <= 0xFFFF,
            ;
            let ph: u128 = off as u128 + i as u128 * size as u128;
            match x.read(bytes, ph, bias) {
                Ok(_) => {},
                Err(e) => {
                    proof {
                        lemma_headers_fail(bytes@, off as int, size as int, i + 1, count as int, bias);
                    }
                    return Err(e);
                },
            }
        }
        Ok(x)
    }
}

proof fn lemma_headers_fail(b: Seq<u8>, off: int, size: int, n: int, m: int, bias: u64)
    requires
        n <= m,
        headers_read(b, off, size, n, bias) is Err,
    ensures
        headers_read(b, off, size, m, bias) == headers_read(b, off, size, n, bias),
    decreases m - n,
{
    if n < m && m > 0 {
        lemma_headers_fail(b, off, size, n, m - 1, bias);
    }
}

// ---- The dynamic section ----

/// The entries of a dynamic section that matter to the loader.
pub ghost struct DynamicV {
    pub needed: Seq<u64>,
    pub strtab: Option<u64>,
    pub symtab: Option<u64>,
    pub hash: Option<u64>,
    pub rela: Option<u64>,
    pub rela_size: Option<u64>,
    pub jmprel: Option<u64>,
    pub pltrel_size: Option<u64>,
    pub relr: Option<u64>,
    pub relr_size: Option<u64>,
    pub relr_ent: Option<u64>,
}

pub open spec fn no_dynamic() -> DynamicV {
    DynamicV {
        needed: Seq::empty(),
        strtab: None,
        symtab: None,
        hash: None,
        rela: None,
        rela_size: None,
        jmprel: None,
        pltrel_size: None,
        relr: None,
        relr_size: None,
        relr_ent: None,
    }
}

/// A dynamic section with one more entry; of two with one tag the later counts.
pub open spec fn dynamic_with(x: DynamicV, tag: u64, val: u64) -> DynamicV {
    if tag == DT_NEEDED {
        DynamicV { needed: x.needed.push(val), ..x }
    } else if tag == DT_STRTAB {
        DynamicV { strtab: Some(val), ..x }
    } else if tag == DT_SYMTAB {
        DynamicV { symtab: Some(val), ..x }
    } else if tag == DT_HASH {
        DynamicV { hash: Some(val), ..x }
    } else if tag == DT_RELA {
        DynamicV { rela: Some(val), ..x }
    } else if tag == DT_RELASZ {
        DynamicV { rela_size: Some(val), ..x }
    } else if tag == DT_JMPREL {
        DynamicV { jmprel: Some(val), ..x }
    } else if tag == DT_PLTRELSZ {
        DynamicV { pltrel_size: Some(val), ..x }
    } else if tag == DT_RELR {
        DynamicV { relr: Some(val), ..x }
    } else if tag == DT_RELRSZ {
        DynamicV { relr_size: Some(val), ..x }
    } else if tag == DT_RELRENT {
        DynamicV { relr_ent: Some(val), ..x }
    } else {
        x
    }
}

/// Reads the entries from `off` on, up to the one that ends the section or
/// until fewer than sixteen of its `left` bytes remain.
pub open spec fn dynamic_read(b: Seq<u8>, x: DynamicV, off: int, left: int) -> Result<DynamicV, &'static str>
    decreases left,
{
    if left < 16 {
        Ok(x)
    } else if off + 16 > b.len() {
        Err(TRUNCATED)
    } else if le64(b, off) == DT_NULL {
        Ok(x)
    } else {
        dynamic_read(b, dynamic_with(x, le64(b, off), le64(b, off + 8)), off + 16, left - 16)
    }
}

struct Dynamic {
    needed: Vec<u64>,
    strtab: Option<u64>,
    symtab: Option<u64>,
    hash: Option<u64>,
    rela: Option<u64>,
    rela_size: Option<u64>,
    jmprel: Option<u64>,
    pltrel_size: Option<u64>,
    relr: Option<u64>,
    relr_size: Option<u64>,
    relr_ent: Option<u64>,
}

impl Dynamic {
    spec fn view(self) -> DynamicV {
        DynamicV {
            needed: self.needed@,
            strtab: self.strtab,
            symtab: self.symtab,
            hash: self.hash,
            rela: self.rela,
            rela_size: self.rela_size,
            jmprel: self.jmprel,
            pltrel_size: self.pltrel_size,
            relr: self.relr,
            relr_size: self.relr_size,
            relr_ent: self.relr_ent,
        }
    }

    fn set(&mut self, tag: u64, val: u64)
        ensures
            final(self)@ == dynamic_with(old(self)@, tag, val),
    {
        if tag == DT_NEEDED {
            self.needed.push(val);
        } else if tag == DT_STRTAB {
            self.strtab = Some(val);
        } else if tag == DT_SYMTAB {
            self.symtab = Some(val);
        } else if tag == DT_HASH {
            self.hash = Some(val);
        } else if tag == DT_RELA {
            self.rela = Some(val);
        } else if tag == DT_RELASZ {
            self.rela_size = Some(val);
        } else if tag == DT_JMPREL {
            self.jmprel = Some(val);
        } else if tag == DT_PLTRELSZ {
            self.pltrel_size = Some(val);
        } else if tag == DT_RELR {
            self.relr = Some(val);
        } else if tag == DT_RELRSZ {
            self.relr_size = Some(val);
        } else if tag == DT_RELRENT {
            self.relr_ent = Some(val);
        }
    }

    fn read(bytes: &[u8], start: u64, size: u64) -> (r: Result<Dynamic, &'static str>)
        ensures
            match dynamic_read(bytes@, no_dynamic(), start as int, size as int) {
                Ok(x) => r matches Ok(d) && d@ == x,
                Err(e) => r matches Err(y) && y == e,
            },
    {
        let n: u128 = bytes.len() as u128;
        let mut x = Dynamic {
            needed: Vec::new(),
            strtab: None,
            symtab: None,
            hash: None,
            rela: None,
            rela_size: None,
            jmprel: None,
            pltrel_size: None,
            relr: None,
            relr_size: None,
            relr_ent: None,
        };
        assert(x@ == no_dynamic());
        let mut off: u128 = start as u128;
        let mut left: u64 = size;
        let ghost whole = dynamic_read(bytes@, no_dynamic(), start as int, size as int);
        while left >= 16
            invariant
                n == bytes@.len(),
                n == bytes.len(),
                off <= 0x2_0000_0000_0000_0000,
                dynamic_read(bytes@, x@, off as int, left as int) == whole,
                whole == dynamic_read(bytes@, no_dynamic(), start as int, size as int),
            decreases left,
        {
            if off + 16 > n {
                return Err(TRUNCATED);
            }
            let tag: u64 = get64(bytes, off as usize);
            let val: u64 = get64(bytes, off as usize + 8);
            if tag == DT_NULL {
                return Ok(x);
            }
            x.set(tag, val);
            off += 16;
            left -= 16;
        }
        Ok(x)
    }
}

/// What a dynamic section asks of the loader, as far as it has been read.
pub ghost struct LinkV {
    pub relocations: Seq<(u64, u64)>,
    pub externs: Seq<ExternV>,
    pub irelative: Seq<(u64, u64)>,
    pub needed: Seq<Seq<u8>>,
    pub exports: Seq<(Seq<u8>, u64)>,
}

pub open spec fn no_links() -> LinkV {
    LinkV {
        relocations: Seq::empty(),
        externs: Seq::empty(),
        irelative: Seq::empty(),
        needed: Seq::empty(),
        exports: Seq::empty(),
    }
}

struct Link {
    relocations: Vec<(u64, u64)>,
    externs: Vec<ExternReloc>,
    irelative: Vec<(u64, u64)>,
    needed: Vec<Vec<u8>>,
    exports: Vec<(Vec<u8>, u64)>,
}

impl Link {
    spec fn view(self) -> LinkV {
        LinkV {
            relocations: self.relocations@,
            externs: externs_view(self.externs@),
            irelative: self.irelative@,
            needed: names_view(self.needed@),
            exports: exports_view(self.exports@),
        }
    }
}

/// Where a file's tables lie, and what its addresses are shifted by.
pub ghost struct TablesV {
    pub loads: Seq<Load>,
    pub symtab: Option<u64>,
    pub strtab: Option<int>,
    pub bias: u64,
}

struct Tables {
    loads: Vec<Load>,
    symtab: Option<u64>,
    strtab: Option<u128>,
    bias: u64,
}

spec fn place_view(p: Option<u128>) -> Option<int> {
    match p {
        Some(x) => Some(x as int),
        None => None,
    }
}

impl Tables {
    spec fn view(self) -> TablesV {
        TablesV {
            loads: self.loads@,
            symtab: self.symtab,
            strtab: place_view(self.strtab),
            bias: self.bias,
        }
    }

    spec fn wf(self) -> bool {
        self.strtab matches Some(s) ==> s <= 0x2_0000_0000_0000_0000
    }
}

/// Where the dynamic string table lies in the file.
pub open spec fn strtab_place(loads: Seq<Load>, strtab: Option<u64>) -> Result<Option<int>, &'static str> {
    match strtab {
        None => Ok(None),
        Some(v) => match offset_of(loads, v) {
            None => Err("loader: couldn't locate this file's dynamic string table (DT_STRTAB) in the file"),
            Some(o) => Ok(Some(o)),
        },
    }
}

/// Where the dynamic symbol table lies in the file.
pub open spec fn symtab_place(t: TablesV) -> Option<int> {
    match t.symtab {
        None => None,
        Some(v) => offset_of(t.loads, v),
    }
}

/// The names of the first `n` needed libraries.
pub open spec fn needed_names(b: Seq<u8>, strtab: Option<int>, vals: Seq<u64>, n: int) -> Result<
    Seq<Seq<u8>>,
    &'static str,
>
    decreases n,
{
    if n <= 0 {
        Ok(Seq::empty())
    } else {
        match needed_names(b, strtab, vals, n - 1) {
            Err(e) => Err(e),
            Ok(names) => match strtab {
                None => Err("loader: DT_NEEDED entry with no DT_STRTAB to read its name from"),
                Some(o) => match text_at(b, o + vals[n - 1]) {
                    Err(e) => Err(e),
                    Ok(s) => Ok(names.push(s)),
                },
            },
        }
    }
}

/// The name of symbol number `sym`.
pub open spec fn symbol_name(b: Seq<u8>, symtab: int, strtab: int, sym: int) -> Result<Seq<u8>, &'static str> {
    match at32(b, symtab + sym * 24) {
        Err(e) => Err(e),
        Ok(name) => text_at(b, strtab + name),
    }
}

fn read_symbol_name(bytes: &[u8], symtab: u128, strtab: u128, sym: u64) -> (r: Result<Vec<u8>, &'static str>)
    requires
        symtab <= 0x2_0000_0000_0000_0000,
        strtab <= 0x2_0000_0000_0000_0000,
        sym <= 0xFFFF_FFFF,
    ensures
        match symbol_name(bytes@, symtab as int, strtab as int, sym as int) {
            Ok(s) => r matches Ok(v) && v@ == s,
            Err(e) => r == Err::<Vec<u8>, &'static str>(e),
        },
{
    match read_u32(bytes, symtab + sym as u128 * 24) {
        Err(e) => Err(e),
        Ok(name) => read_cstr(bytes, strtab + name as u128),
    }
}

/// What the relocation entry at `at` of the general table adds.
pub open spec fn rela_read(b: Seq<u8>, t: TablesV, x: LinkV, at: int) -> Result<LinkV, &'static str> {
    if at + 24 > b.len() {
        Err(TRUNCATED)
    } else {
        let target = t.bias.wrapping_add(le64(b, at));
        let kind = (le64(b, at + 8) % 0x1_0000_0000) as u32;
        let sym = (le64(b, at + 8) / 0x1_0000_0000) as int;
        let addend = le64(b, at + 16);
        if kind == R_X86_64_RELATIVE {
            Ok(LinkV { relocations: x.relocations.push((target, t.bias.wrapping_add(addend))), ..x })
        } else if kind == R_X86_64_64 || kind == R_X86_64_GLOB_DAT {
            match (symtab_place(t), t.strtab) {
                (None, _) => Err("loader: relocation needs a symbol but this file has no DT_SYMTAB"),
                (_, None) => Err("loader: relocation needs a symbol name but this file has no DT_STRTAB"),
                (Some(symtab), Some(strtab)) => match symbol_name(b, symtab, strtab, sym) {
                    Err(e) => Err(e),
                    Ok(name) => Ok(
                        LinkV { externs: x.externs.push(ExternV { target, name, kind, addend }), ..x },
                    ),
                },
            }
        } else if kind == R_X86_64_IRELATIVE {
            Ok(LinkV { irelative: x.irelative.push((target, t.bias.wrapping_add(addend))), ..x })
        } else {
            Err("loader: this file has a .rela.dyn relocation type KonjacOS's loader doesn't support yet")
        }
    }
}

/// What the first `n` entries of the general relocation table add.
pub open spec fn rela_reads(b: Seq<u8>, t: TablesV, x: LinkV, base: int, n: int) -> Result<LinkV, &'static str>
    decreases n,
{
    if n <= 0 {
        Ok(x)
    } else {
        match rela_reads(b, t, x, base, n - 1) {
            Err(e) => Err(e),
            Ok(y) => rela_read(b, t, y, base + 24 * (n - 1)),
        }
    }
}

proof fn lemma_rela_fail(b: Seq<u8>, t: TablesV, x: LinkV, base: int, n: int, m: int)
    requires
        n <= m,
        rela_reads(b, t, x, base, n) is Err,
    ensures
        rela_reads(b, t, x, base, m) == rela_reads(b, t, x, base, n),
    decreases m - n,
{
    if n < m && m > 0 {
        lemma_rela_fail(b, t, x, base, n, m - 1);
    }
}

fn symtab_offset(t: &Tables) -> (r: Option<u128>)
    ensures
        match r {
            Some(o) => symtab_place(t@) == Some(o as int) && o <= 0x2_0000_0000_0000_0000,
            None => symtab_place(t@) is None,
        },
{
    match t.symtab {
        None => None,
        Some(v) => vaddr_to_file_offset(&t.loads, v),
    }
}

impl Link {
    fn read_rela(&mut self, bytes: &[u8], t: &Tables, at: u128) -> (r: Result<(), &'static str>)
        requires
            t.wf(),
            at <= FAR,
        ensures
            match rela_read(bytes@, t@, old(self)@, at as int) {
                Ok(x) => r is Ok && final(self)@ == x && at + 24 <= bytes@.len(),
                Err(e) => r == Err::<(), &'static str>(e),
            },
    {
        if at + 24 > bytes.len() as u128 {
            return Err(TRUNCATED);
        }
        let o: usize = at as usize;
        let target: u64 = t.bias.wrapping_add(get64(bytes, o));
        let info: u64 = get64(bytes, o + 8);
        let addend: u64 = get64(bytes, o + 16);
        let kind: u32 = (info % 0x1_0000_0000) as u32;
        let sym: u64 = info / 0x1_0000_0000;
        if kind == R_X86_64_RELATIVE {
            self.relocations.push((target, t.bias.wrapping_add(addend)));
        } else if kind == R_X86_64_64 || kind == R_X86_64_GLOB_DAT {
            let symtab: u128 = match symtab_offset(t) {
                Some(x) => x,
                None => {
                    return Err("loader: relocation needs a symbol but this file has no DT_SYMTAB");
                },
            };
            let strtab: u128 = match t.strtab {
                Some(x) => x,
                None => {
                    return Err("loader: relocation needs a symbol name but this file has no DT_STRTAB");
                },
            };
            match read_symbol_name(bytes, symtab, strtab, sym) {
                Err(e) => {
                    return Err(e);
                },
                Ok(name) => {
                    let ghost was = self.externs@;
                    self.externs.push(ExternReloc { target_vaddr: target, sym_name: name, kind, addend });
                    assert(externs_view(self.externs@) =~= externs_view(was).push(self.externs@.last()@));
                },
            }
        } else if kind == R_X86_64_IRELATIVE {
            self.irelative.push((target, t.bias.wrapping_add(addend)));
        } else {
            return Err(
                "loader: this file has a .rela.dyn relocation type KonjacOS's loader doesn't support yet",
            );
        }
        Ok(())
    }

    fn read_relas(&mut self, bytes: &[u8], t: &Tables, base: u128, count: u64) -> (r: Result<
        (),
        &'static str,
    >)
        requires
            t.wf(),
            base <= 0x2_0000_0000_0000_0000,
        ensures
            match rela_reads(bytes@, t@, old(self)@, base as int, count as int) {
                Ok(x) => r is Ok && final(self)@ == x,
                Err(e) => r == Err::<(), &'static str>(e),
            },
    {
        let ghost x = self@;
        let mut i: u64 = 0;
        assert(bytes.len() == bytes@.len());
        while i < count
            invariant
                i <= count,
                t.wf(),
                base <= 0x2_0000_0000_0000_0000,
                bytes@.len() <= usize::MAX,
                i == 0 || base + 24 * i <= bytes@.len(),
                x == old(self)@,
                rela_reads(bytes@, t@, x, base as int, i as int) == Ok::<LinkV, &'static str>(self@),
            decreases count - i,
        {
            match self.read_rela(bytes, t, base + 24 * (i as u128)) {
                Ok(_) => {},
                Err(e) => {
                    proof {
                        lemma_rela_fail(bytes@, t@, x, base as int, i + 1, count as int);
                    }
                    return Err(e);
                },
            }
            i += 1;
        }
        Ok(())
    }
}

/// The relocation at `site` that leaves its addend in the file.
pub open spec fn relr_site(b: Seq<u8>, t: TablesV, relocations: Seq<(u64, u64)>, site: u64, missing: &'static str) -> Result<
    Seq<(u64, u64)>,
    &'static str,
> {
    match offset_of(t.loads, site) {
        None => Err(missing),
        Some(o) => match at64(b, o) {
            Err(e) => Err(e),
            Ok(old) => Ok(relocations.push((t.bias.wrapping_add(site), t.bias.wrapping_add(old)))),
        },
    }
}

/// The relocations of a bitmap whose lowest bit stands for `site`, the next
/// for the word after it, and so on.
pub open spec fn relr_bits(b: Seq<u8>, t: TablesV, relocations: Seq<(u64, u64)>, site: u64, bits: u64) -> Result<
    Seq<(u64, u64)>,
    &'static str,
>
    decreases bits,
{
    if bits == 0 {
        Ok(relocations)
    } else if bits % 2 == 1 {
        match relr_site(
            b,
            t,
            relocations,
            site,
            "loader: a DT_RELR bitmap entry doesn't fall inside any PT_LOAD segment",
        ) {
            Err(e) => Err(e),
            Ok(more) => relr_bits(b, t, more, site.wrapping_add(8), bits / 2),
        }
    } else {
        relr_bits(b, t, relocations, site.wrapping_add(8), bits / 2)
    }
}

/// What the first `n` words of a packed table of relative relocations add,
/// with the address that a bitmap at that point starts from. An even word is
/// the address of a relocation; the bits of an odd word, from the second on,
/// stand for the 63 words that follow.
pub open spec fn relr_reads(b: Seq<u8>, t: TablesV, relocations: Seq<(u64, u64)>, base: int, n: int) -> Result<
    (Seq<(u64, u64)>, u64),
    &'static str,
>
    decreases n,
{
    if n <= 0 {
        Ok((relocations, 0))
    } else {
        match relr_reads(b, t, relocations, base, n - 1) {
            Err(e) => Err(e),
            Ok((so_far, addr)) => match at64(b, base + 8 * (n - 1)) {
                Err(e) => Err(e),
                Ok(word) => if word % 2 == 0 {
                    match relr_site(
                        b,
                        t,
                        so_far,
                        word,
                        "loader: a DT_RELR address entry doesn't fall inside any PT_LOAD segment",
                    ) {
                        Err(e) => Err(e),
                        Ok(more) => Ok((more, word.wrapping_add(8))),
                    }
                } else {
                    match relr_bits(b, t, so_far, addr, word / 2) {
                        Err(e) => Err(e),
                        Ok(more) => Ok((more, addr.wrapping_add(504))),
                    }
                },
            },
        }
    }
}

proof fn lemma_relr_fail(b: Seq<u8>, t: TablesV, relocations: Seq<(u64, u64)>, base: int, n: int, m: int)
    requires
        n <= m,
        relr_reads(b, t, relocations, base, n) is Err,
    ensures
        relr_reads(b, t, relocations, base, m) == relr_reads(b, t, relocations, base, n),
    decreases m - n,
{
    if n < m && m > 0 {
        lemma_relr_fail(b, t, relocations, base, n, m - 1);
    }
}

fn read_relr_site(bytes: &[u8], t: &Tables, relocations: &mut Vec<(u64, u64)>, site: u64, missing: &'static str) -> (r: Result<
    (),
    &'static str,
>)
    ensures
        match relr_site(bytes@, t@, old(relocations)@, site, missing) {
            Ok(x) => r is Ok && final(relocations)@ == x,
            Err(e) => r == Err::<(), &'static str>(e),
        },
{
    match vaddr_to_file_offset(&t.loads, site) {
        None => Err(missing),
        Some(o) => match read_u64(bytes, o) {
            Err(e) => Err(e),
            Ok(old_value) => {
                relocations.push((t.bias.wrapping_add(site), t.bias.wrapping_add(old_value)));
                Ok(())
            },
        },
    }
}

fn read_relrs(bytes: &[u8], t: &Tables, relocations: &mut Vec<(u64, u64)>, base: u128, count: u64) -> (r: Result<
    (),
    &'static str,
>)
    requires
        base <= 0x2_0000_0000_0000_0000,
    ensures
        match relr_reads(bytes@, t@, old(relocations)@, base as int, count as int) {
            Ok(x) => r is Ok && final(relocations)@ == x.0,
            Err(e) => r == Err::<(), &'static str>(e),
        },
{
    let ghost start = relocations@;
    let mut addr: u64 = 0;
    let mut i: u64 = 0;
    assert(bytes.len() == bytes@.len());
    while i < count
        invariant
            i <= count,
            base <= 0x2_0000_0000_0000_0000,
            bytes@.len() <= usize::MAX,
            i == 0 || base + 8 * i <= bytes@.len(),
            start == old(relocations)@,
            relr_reads(bytes@, t@, start, base as int, i as int) == Ok::<
                (Seq<(u64, u64)>, u64),
                &'static str,
            >((relocations@, addr)),
        decreases count - i,
    {
        let ghost step = relr_reads(bytes@, t@, start, base as int, i + 1);
        let ghost whole = relr_reads(bytes@, t@, start, base as int, count as int);
        proof {
            if step is Err {
                lemma_relr_fail(bytes@, t@, start, base as int, i + 1, count as int);
            }
        }
        let word: u64 = match read_u64(bytes, base + 8 * (i as u128)) {
            Ok(w) => w,
            Err(e) => {
                return Err(e);
            },
        };
        if word % 2 == 0 {
            match read_relr_site(
                bytes,
                t,
                relocations,
                word,
                "loader: a DT_RELR address entry doesn't fall inside any PT_LOAD segment",
            ) {
                Ok(_) => {},
                Err(e) => {
                    return Err(e);
                },
            }
            addr = word.wrapping_add(8);
        } else {
            let mut bits: u64 = word / 2;
            let mut site: u64 = addr;
            let ghost so_far = relocations@;
            while bits != 0
                invariant
                    relr_bits(bytes@, t@, relocations@, site, bits) == relr_bits(
                        bytes@,
                        t@,
                        so_far,
                        addr,
                        word / 2,
                    ),
                    start == old(relocations)@,
                    whole == relr_reads(bytes@, t@, start, base as int, count as int),
                    step is Err ==> whole == step,
                    match relr_bits(bytes@, t@, so_far, addr, word / 2) {
                        Err(e) => step matches Err(x) && x == e,
                        Ok(_) => true,
                    },
                decreases bits,
            {
                if bits % 2 == 1 {
                    match read_relr_site(
                        bytes,
                        t,
                        relocations,
                        site,
                        "loader: a DT_RELR bitmap entry doesn't fall inside any PT_LOAD segment",
                    ) {
                        Ok(_) => {},
                        Err(e) => {
                            return Err(e);
                        },
                    }
                }
                site = site.wrapping_add(8);
                bits = bits / 2;
            }
            addr = addr.wrapping_add(504);
        }
        i += 1;
    }
    Ok(())
}

/// What the relocation entry at `at` of the procedure linkage table adds.
pub open spec fn plt_read(b: Seq<u8>, bias: u64, symtab: int, strtab: int, x: LinkV, at: int) -> Result<
    LinkV,
    &'static str,
> {
    if at + 24 > b.len() {
        Err(TRUNCATED)
    } else {
        let target = bias.wrapping_add(le64(b, at));
        let kind = (le64(b, at + 8) % 0x1_0000_0000) as u32;
        let sym = (le64(b, at + 8) / 0x1_0000_0000) as int;
        let addend = le64(b, at + 16);
        if kind != R_X86_64_JUMP_SLOT {
            Err(
                "loader: this file's .rela.plt has a relocation type other than R_X86_64_JUMP_SLOT, which KonjacOS's loader doesn't support",
            )
        } else {
            match symbol_name(b, symtab, strtab, sym) {
                Err(e) => Err(e),
                Ok(name) => Ok(LinkV { externs: x.externs.push(ExternV { target, name, kind, addend }), ..x }),
            }
        }
    }
}

pub open spec fn plt_reads(b: Seq<u8>, bias: u64, symtab: int, strtab: int, x: LinkV, base: int, n: int) -> Result<
    LinkV,
    &'static str,
>
    decreases n,
{
    if n <= 0 {
        Ok(x)
    } else {
        match plt_reads(b, bias, symtab, strtab, x, base, n - 1) {
            Err(e) => Err(e),
            Ok(y) => plt_read(b, bias, symtab, strtab, y, base + 24 * (n - 1)),
        }
    }
}

proof fn lemma_plt_fail(b: Seq<u8>, bias: u64, symtab: int, strtab: int, x: LinkV, base: int, n: int, m: int)
    requires
        n <= m,
        plt_reads(b, bias, symtab, strtab, x, base, n) is Err,
    ensures
        plt_reads(b, bias, symtab, strtab, x, base, m) == plt_reads(b, bias, symtab, strtab, x, base, n),
    decreases m - n,
{
    if n < m && m > 0 {
        lemma_plt_fail(b, bias, symtab, strtab, x, base, n, m - 1);
    }
}

/// What symbol number `i` adds to the exported symbols: a symbol that has a
/// name, is defined here and is not local.
pub open spec fn export_read(
    b: Seq<u8>,
    bias: u64,
    symtab: int,
    strtab: int,
    x: Seq<(Seq<u8>, u64)>,
    i: int,
) -> Result<Seq<(Seq<u8>, u64)>, &'static str> {
    let at = symtab + 24 * i;
    if at + 4 > b.len() {
        Err(TRUNCATED)
    } else if at + 5 > b.len() {
        Err("loader: file too short (truncated dynamic symbol table)")
    } else if at + 16 > b.len() {
        Err(TRUNCATED)
    } else if le32(b, at) != 0 && le16(b, at + 6) != 0 && b[at + 4] / 16 != 0 {
        match text_at(b, strtab + le32(b, at)) {
            Err(e) => Err(e),
            Ok(name) => Ok(x.push((name, bias.wrapping_add(le64(b, at + 8))))),
        }
    } else {
        Ok(x)
    }
}

pub open spec fn export_reads(
    b: Seq<u8>,
    bias: u64,
    symtab: int,
    strtab: int,
    x: Seq<(Seq<u8>, u64)>,
    n: int,
) -> Result<Seq<(Seq<u8>, u64)>, &'static str>
    decreases n,
{
    if n <= 0 {
        Ok(x)
    } else {
        match export_reads(b, bias, symtab, strtab, x, n - 1) {
            Err(e) => Err(e),
            Ok(y) => export_read(b, bias, symtab, strtab, y, n - 1),
        }
    }
}

proof fn lemma_export_fail(
    b: Seq<u8>,
    bias: u64,
    symtab: int,
    strtab: int,
    x: Seq<(Seq<u8>, u64)>,
    n: int,
    m: int,
)
    requires
        n <= m,
        export_reads(b, bias, symtab, strtab, x, n) is Err,
    ensures
        export_reads(b, bias, symtab, strtab, x, m) == export_reads(b, bias, symtab, strtab, x, n),
    decreases m - n,
{
    if n < m && m > 0 {
        lemma_export_fail(b, bias, symtab, strtab, x, n, m - 1);
    }
}

impl Link {
    fn read_plts(&mut self, bytes: &[u8], bias: u64, symtab: u128, strtab: u128, base: u128, count: u64) -> (r: Result<
        (),
        &'static str,
    >)
        requires
            symtab <= 0x2_0000_0000_0000_0000,
            strtab <= 0x2_0000_0000_0000_0000,
            base <= 0x2_0000_0000_0000_0000,
        ensures
            match plt_reads(
                bytes@,
                bias,
                symtab as int,
                strtab as int,
                old(self)@,
                base as int,
                count as int,
            ) {
                Ok(x) => r is Ok && final(self)@ == x,
                Err(e) => r == Err::<(), &'static str>(e),
            },
    {
        let ghost x = self@;
        let mut i: u64 = 0;
        assert(bytes.len() == bytes@.len());
        while i < count
            invariant
                i <= count,
                symtab <= 0x2_0000_0000_0000_0000,
                strtab <= 0x2_0000_0000_0000_0000,
                base <= 0x2_0000_0000_0000_0000,
                bytes@.len() <= usize::MAX,
                i == 0 || base + 24 * i <= bytes@.len(),
                x == old(self)@,
                plt_reads(bytes@, bias, symtab as int, strtab as int, x, base as int, i as int) == Ok::<
                    LinkV,
                    &'static str,
                >(self@),
            decreases count - i,
        {
            proof {
                if plt_reads(bytes@, bias, symtab as int, strtab as int, x, base as int, i + 1) is Err {
                    lemma_plt_fail(
                        bytes@,
                        bias,
                        symtab as int,
                        strtab as int,
                        x,
                        base as int,
                        i + 1,
                        count as int,
                    );
                }
            }
            let at: u128 = base + 24 * (i as u128);
            if at + 24 > bytes.len() as u128 {
                return Err(TRUNCATED);
            }
            let o: usize = at as usize;
            let target: u64 = bias.wrapping_add(get64(bytes, o));
            let info: u64 = get64(bytes, o + 8);
            let addend: u64 = get64(bytes, o + 16);
            let kind: u32 = (info % 0x1_0000_0000) as u32;
            let sym: u64 = info / 0x1_0000_0000;
            if kind != R_X86_64_JUMP_SLOT {
                return Err(
                    "loader: this file's .rela.plt has a relocation type other than R_X86_64_JUMP_SLOT, which KonjacOS's loader doesn't support",
                );
            }
            match read_symbol_name(bytes, symtab, strtab, sym) {
                Err(e) => {
                    return Err(e);
                },
                Ok(name) => {
                    let ghost was = self.externs@;
                    self.externs.push(ExternReloc { target_vaddr: target, sym_name: name, kind, addend });
                    assert(externs_view(self.externs@) =~= externs_view(was).push(self.externs@.last()@));
                },
            }
            i += 1;
        }
        Ok(())
    }

    fn read_exports(&mut self, bytes: &[u8], bias: u64, symtab: u128, strtab: u128, count: u32) -> (r: Result<
        (),
        &'static str,
    >)
        requires
            symtab <= 0x2_0000_0000_0000_0000,
            strtab <= 0x2_0000_0000_0000_0000,
        ensures
            match export_reads(
                bytes@,
                bias,
                symtab as int,
                strtab as int,
                old(self)@.exports,
                count as int,
            ) {
                Ok(x) => r is Ok && final(self)@ == (LinkV { exports: x, ..old(self)@ }),
                Err(e) => r == Err::<(), &'static str>(e),
            },
    {
        let ghost x = self@;
        for i in 0..count
            invariant
                symtab <= 0x2_0000_0000_0000_0000,
                strtab <= 0x2_0000_0000_0000_0000,
                x == old(self)@,
                self@ == (LinkV { exports: self@.exports, ..x }),
                export_reads(bytes@, bias, symtab as int, strtab as int, x.exports, i as int) == Ok::<
                    Seq<(Seq<u8>, u64)>,
                    &'static str,
                >(self@.exports),
        {
            proof {
                if export_reads(bytes@, bias, symtab as int, strtab as int, x.exports, i + 1) is Err {
                    lemma_export_fail(
                        bytes@,
                        bias,
                        symtab as int,
                        strtab as int,
                        x.exports,
                        i + 1,
                        count as int,
                    );
                }
            }
            let n: u128 = bytes.len() as u128;
            let at: u128 = symtab + 24 * (i as u128);
            if at + 4 > n {
                return Err(TRUNCATED);
            }
            if at + 5 > n {
                return Err("loader: file too short (truncated dynamic symbol table)");
            }
            if at + 16 > n {
                return Err(TRUNCATED);
            }
            let o: usize = at as usize;
            let name: u32 = get32(bytes, o);
            let section: u16 = get16(bytes, o + 6);
            let value: u64 = get64(bytes, o + 8);
            if name != 0 && section != 0 && bytes[o + 4] / 16 != 0 {
                match read_cstr(bytes, strtab + name as u128) {
                    Err(e) => {
                        return Err(e);
                    },
                    Ok(text) => {
                        let ghost was = self.exports@;
                        let ghost shown = text@;
                        self.exports.push((text, bias.wrapping_add(value)));
                        assert(exports_view(self.exports@) =~= exports_view(was).push(
                            (shown, bias.wrapping_add(value)),
                        ));
                    },
                }
            }
        }
        Ok(())
    }
}

/// The needed libraries, relocations and exports of a dynamic section.
pub open spec fn links_read(b: Seq<u8>, loads: Seq<Load>, dynamic: DynamicV, bias: u64) -> Result<
    LinkV,
    &'static str,
> {
    match strtab_place(loads, dynamic.strtab) {
        Err(e) => Err(e),
        Ok(strtab) => match needed_names(b, strtab, dynamic.needed, dynamic.needed.len() as int) {
            Err(e) => Err(e),
            Ok(needed) => {
                let t = TablesV { loads, symtab: dynamic.symtab, strtab, bias };
                match general_relocations(b, t, dynamic, LinkV { needed, ..no_links() }) {
                    Err(e) => Err(e),
                    Ok(x) => match packed_relocations(b, t, dynamic, x) {
                        Err(e) => Err(e),
                        Ok(x) => match linkage_relocations(b, t, dynamic, x) {
                            Err(e) => Err(e),
                            Ok(x) => exported_symbols(b, t, dynamic, x),
                        },
                    },
                }
            },
        },
    }
}

pub open spec fn general_relocations(b: Seq<u8>, t: TablesV, dynamic: DynamicV, x: LinkV) -> Result<
    LinkV,
    &'static str,
> {
    match (dynamic.rela, dynamic.rela_size) {
        (Some(vaddr), Some(size)) => match offset_of(t.loads, vaddr) {
            None => Err("loader: couldn't locate this file's relocation table (DT_RELA) in the file"),
            Some(base) => rela_reads(b, t, x, base, size as int / 24),
        },
        _ => Ok(x),
    }
}

pub open spec fn packed_relocations(b: Seq<u8>, t: TablesV, dynamic: DynamicV, x: LinkV) -> Result<
    LinkV,
    &'static str,
> {
    match (dynamic.relr, dynamic.relr_size) {
        (Some(vaddr), Some(size)) => if dynamic.relr_ent matches Some(n) && n != 8 {
            Err(
                "loader: this file's DT_RELRENT isn't 8 bytes, which KonjacOS's RELR decoder doesn't support",
            )
        } else {
            match offset_of(t.loads, vaddr) {
                None => Err(
                    "loader: couldn't locate this file's RELR relative relocation table (DT_RELR) in the file",
                ),
                Some(base) => match relr_reads(b, t, x.relocations, base, size as int / 8) {
                    Err(e) => Err(e),
                    Ok((relocations, _)) => Ok(LinkV { relocations, ..x }),
                },
            }
        },
        _ => Ok(x),
    }
}

pub open spec fn linkage_relocations(b: Seq<u8>, t: TablesV, dynamic: DynamicV, x: LinkV) -> Result<
    LinkV,
    &'static str,
> {
    match (dynamic.jmprel, dynamic.pltrel_size) {
        (Some(vaddr), Some(size)) => match (symtab_place(t), t.strtab, offset_of(t.loads, vaddr)) {
            (None, _, _) => Err("loader: this file's .rela.plt needs DT_SYMTAB, which is missing"),
            (_, None, _) => Err("loader: this file's .rela.plt needs DT_STRTAB, which is missing"),
            (_, _, None) => Err(
                "loader: couldn't locate this file's PLT relocation table (DT_JMPREL) in the file",
            ),
            (Some(symtab), Some(strtab), Some(base)) => plt_reads(
                b,
                t.bias,
                symtab,
                strtab,
                x,
                base,
                size as int / 24,
            ),
        },
        _ => Ok(x),
    }
}

pub open spec fn exported_symbols(b: Seq<u8>, t: TablesV, dynamic: DynamicV, x: LinkV) -> Result<
    LinkV,
    &'static str,
> {
    match (dynamic.symtab, dynamic.hash, t.strtab) {
        (Some(symtab), Some(hash), Some(strtab)) => match (
            offset_of(t.loads, symtab),
            offset_of(t.loads, hash),
        ) {
            (None, _) => Err(
                "loader: couldn't locate this file's dynamic symbol table (DT_SYMTAB) in the file",
            ),
            (_, None) => Err(
                "loader: couldn't locate this file's symbol hash table (DT_HASH) in the file",
            ),
            (Some(symtab), Some(hash)) => match at32(b, hash + 4) {
                Err(e) => Err(e),
                Ok(count) => match export_reads(b, t.bias, symtab, strtab, x.exports, count as int) {
                    Err(e) => Err(e),
                    Ok(exports) => Ok(LinkV { exports, ..x }),
                },
            },
        },
        _ => Ok(x),
    }
}

impl Link {
    /// Reads what a dynamic section asks of the loader.
    fn read(bytes: &[u8], loads: &Vec<Load>, d: &Dynamic, bias: u64) -> (r: Result<Link, &'static str>)
        ensures
            match links_read(bytes@, loads@, d@, bias) {
                Ok(x) => r matches Ok(l) && l@ == x,
                Err(e) => r matches Err(y) && y == e,
            },
    {
        let strtab: Option<u128> = match d.strtab {
            None => None,
            Some(v) => match vaddr_to_file_offset(loads, v) {
                None => {
                    return Err(
                        "loader: couldn't locate this file's dynamic string table (DT_STRTAB) in the file",
                    );
                },
                Some(o) => Some(o),
            },
        };
        let mut x = Link {
            relocations: Vec::new(),
            externs: Vec::new(),
            irelative: Vec::new(),
            needed: Vec::new(),
            exports: Vec::new(),
        };
        assert(x@.externs =~= Seq::empty() && x@.needed =~= Seq::empty() && x@.exports =~= Seq::empty());
        let n: usize = d.needed.len();
        for i in 0..n
            invariant
                n == d.needed@.len(),
                strtab matches Some(s) ==> s <= 0x2_0000_0000_0000_0000,
                strtab_place(loads@, d@.strtab) == Ok::<Option<int>, &'static str>(place_view(strtab)),
                needed_names(bytes@, place_view(strtab), d.needed@, i as int) == Ok::<
                    Seq<Seq<u8>>,
                    &'static str,
                >(x@.needed),
                x@ == (LinkV { needed: x@.needed, ..no_links() }),
        {
            proof {
                if needed_names(bytes@, place_view(strtab), d.needed@, i + 1) is Err {
                    lemma_needed_fail(bytes@, place_view(strtab), d.needed@, i + 1, n as int);
                }
            }
            let base: u128 = match strtab {
                Some(s) => s,
                None => {
                    return Err("loader: DT_NEEDED entry with no DT_STRTAB to read its name from");
                },
            };
            match read_cstr(bytes, base + d.needed[i] as u128) {
                Err(e) => {
                    return Err(e);
                },
                Ok(name) => {
                    let ghost was = x.needed@;
                    let ghost shown = name@;
                    x.needed.push(name);
                    assert(names_view(x.needed@) =~= names_view(was).push(shown));
                },
            }
        }
        let mut copied: Vec<Load> = Vec::new();
        let m: usize = loads.len();
        for i in 0..m
            invariant
                m == loads@.len(),
                copied@ == loads@.take(i as int),
        {
            copied.push(loads[i]);
            assert(copied@ =~= loads@.take(i + 1));
        }
        assert(copied@ =~= loads@);
        let t = Tables { loads: copied, symtab: d.symtab, strtab, bias };
        if let (Some(vaddr), Some(size)) = (d.rela, d.rela_size) {
            match vaddr_to_file_offset(loads, vaddr) {
                None => {
                    return Err(
                        "loader: couldn't locate this file's relocation table (DT_RELA) in the file",
                    );
                },
                Some(base) => match x.read_relas(bytes, &t, base, size / 24) {
                    Ok(_) => {},
                    Err(e) => {
                        return Err(e);
                    },
                },
            }
        }
        if let (Some(vaddr), Some(size)) = (d.relr, d.relr_size) {
            if let Some(ent) = d.relr_ent {
                if ent != 8 {
                    return Err(
                        "loader: this file's DT_RELRENT isn't 8 bytes, which KonjacOS's RELR decoder doesn't support",
                    );
                }
            }
            match vaddr_to_file_offset(loads, vaddr) {
                None => {
                    return Err(
                        "loader: couldn't locate this file's RELR relative relocation table (DT_RELR) in the file",
                    );
                },
                Some(base) => match read_relrs(bytes, &t, &mut x.relocations, base, size / 8) {
                    Ok(_) => {},
                    Err(e) => {
                        return Err(e);
                    },
                },
            }
        }
        if let (Some(vaddr), Some(size)) = (d.jmprel, d.pltrel_size) {
            let symtab: u128 = match symtab_offset(&t) {
                Some(o) => o,
                None => {
                    return Err("loader: this file's .rela.plt needs DT_SYMTAB, which is missing");
                },
            };
            let names: u128 = match strtab {
                Some(o) => o,
                None => {
                    return Err("loader: this file's .rela.plt needs DT_STRTAB, which is missing");
                },
            };
            match vaddr_to_file_offset(loads, vaddr) {
                None => {
                    return Err(
                        "loader: couldn't locate this file's PLT relocation table (DT_JMPREL) in the file",
                    );
                },
                Some(base) => match x.read_plts(bytes, bias, symtab, names, base, size / 24) {
                    Ok(_) => {},
                    Err(e) => {
                        return Err(e);
                    },
                },
            }
        }
        if let (Some(symtab_vaddr), Some(hash_vaddr), Some(names)) = (d.symtab, d.hash, strtab) {
            let symtab: u128 = match vaddr_to_file_offset(loads, symtab_vaddr) {
                Some(o) => o,
                None => {
                    return Err(
                        "loader: couldn't locate this file's dynamic symbol table (DT_SYMTAB) in the file",
                    );
                },
            };
            let hash: u128 = match vaddr_to_file_offset(loads, hash_vaddr) {
                Some(o) => o,
                None => {
                    return Err(
                        "loader: couldn't locate this file's symbol hash table (DT_HASH) in the file",
                    );
                },
            };
            let count: u32 = match read_u32(bytes, hash + 4) {
                Ok(c) => c,
                Err(e) => {
                    return Err(e);
                },
            };
            match x.read_exports(bytes, bias, symtab, names, count) {
                Ok(_) => {},
                Err(e) => {
                    return Err(e);
                },
            }
        }
        Ok(x)
    }
}

proof fn lemma_needed_fail(b: Seq<u8>, strtab: Option<int>, vals: Seq<u64>, n: int, m: int)
    requires
        n <= m,
        needed_names(b, strtab, vals, n) is Err,
    ensures
        needed_names(b, strtab, vals, m) == needed_names(b, strtab, vals, n),
    decreases m - n,
{
    if n < m && m > 0 {
        lemma_needed_fail(b, strtab, vals, n, m - 1);
    }
}

// ---- Whole files ----

/// The address of the program headers in memory: they are loaded if some
/// segment starts at the start of the file.
pub open spec fn headers_vaddr(loads: Seq<Load>, bias: u64, off: u64) -> u64
    decreases loads.len(),
{
    if loads.len() == 0 {
        0
    } else if loads[0].1 == 0 {
        loads[0].0.wrapping_add(bias).wrapping_add(off)
    } else {
        headers_vaddr(loads.drop_first(), bias, off)
    }
}

/// What the header of an ELF file must be.
pub open spec fn header_checked(b: Seq<u8>) -> Result<(), &'static str> {
    if b.len() < 64 {
        Err("loader: ELF file too short to hold an ELF64 header")
    } else if !(b[0] == 0x7F && b[1] == 0x45 && b[2] == 0x4C && b[3] == 0x46) {
        Err("loader: not an ELF file (bad magic)")
    } else if b[4] != 2 {
        Err("loader: only 64-bit ELF (EI_CLASS=ELFCLASS64) is supported")
    } else if b[5] != 1 {
        Err("loader: only little-endian ELF (EI_DATA=ELFDATA2LSB) is supported")
    } else if le16(b, 16) != 2 && le16(b, 16) != 3 {
        Err("loader: only ET_EXEC (static) or ET_DYN (PIE/shared library) ELF files are supported")
    } else if le16(b, 18) != 0x3E {
        Err("loader: not an x86_64 (EM_X86_64) ELF executable")
    } else {
        Ok(())
    }
}

/// What the addresses of a file are shifted by: as forced, else by the usual
/// base for a position-independent file and not at all for another.
pub open spec fn bias_of(b: Seq<u8>, forced: Option<u64>) -> u64 {
    match forced {
        Some(x) => x,
        None => if le16(b, 16) == 3 {
            PIE_BASE
        } else {
            0
        },
    }
}

/// An ELF file, taken apart.
#[verifier::opaque]
pub open spec fn elf_image(b: Seq<u8>, forced: Option<u64>) -> Result<ImageV, &'static str> {
    match header_checked(b) {
        Err(e) => Err(e),
        Ok(_) => {
            let bias = bias_of(b, forced);
            match headers_read(b, le64(b, 32) as int, le16(b, 54) as int, le16(b, 56) as int, bias) {
                Err(e) => Err(e),
                Ok(h) => if h.segments.len() == 0 {
                    Err("loader: ELF file has no PT_LOAD segments -- nothing to run")
                } else {
                    match dynamic_links(b, h, bias) {
                        Err(e) => Err(e),
                        Ok(x) => Ok(
                            ImageV {
                                format: Format::Elf,
                                entry: le64(b, 24).wrapping_add(bias),
                                segments: h.segments,
                                relocations: x.relocations,
                                externs: x.externs,
                                irelative: x.irelative,
                                needed: x.needed,
                                exports: x.exports,
                                phdr_vaddr: headers_vaddr(h.loads, bias, le64(b, 32)),
                                phentsize: le16(b, 54) as u64,
                                phnum: le16(b, 56) as u64,
                                interp: h.interp,
                            },
                        ),
                    }
                },
            }
        },
    }
}

pub open spec fn dynamic_links(b: Seq<u8>, h: HeadersV, bias: u64) -> Result<LinkV, &'static str> {
    match h.dynamic {
        None => Ok(no_links()),
        Some((start, size)) => match dynamic_read(b, no_dynamic(), start as int, size as int) {
            Err(e) => Err(e),
            Ok(d) => links_read(b, h.loads, d, bias),
        },
    }
}

fn find_headers(loads: &Vec<Load>, bias: u64, off: u64) -> (r: u64)
    ensures
        r == headers_vaddr(loads@, bias, off),
{
    let n: usize = loads.len();
    assert(loads@.skip(0) =~= loads@);
    for i in 0..n
        invariant
            n == loads@.len(),
            headers_vaddr(loads@, bias, off) == headers_vaddr(loads@.skip(i as int), bias, off),
    {
        assert(loads@.skip(i as int)[0] == loads@[i as int]);
        assert(loads@.skip(i as int).drop_first() =~= loads@.skip(i + 1));
        if loads[i].1 == 0 {
            return loads[i].0.wrapping_add(bias).wrapping_add(off);
        }
    }
    0
}

/// Takes an ELF file apart, its addresses shifted by `forced` if that is
/// given.
pub fn parse_elf_at(bytes: &[u8], forced: Option<u64>) -> (r: Result<Image, &'static str>)
    ensures
        match elf_image(bytes@, forced) {
            Ok(x) => r matches Ok(i) && i@ == x,
            Err(e) => r matches Err(y) && y == e,
        },
{
    proof {
        reveal(elf_image);
    }
    if bytes.len() < 64 {
        return Err("loader: ELF file too short to hold an ELF64 header");
    }
    if !(bytes[0] == 0x7F && bytes[1] == 0x45 && bytes[2] == 0x4C && bytes[3] == 0x46) {
        return Err("loader: not an ELF file (bad magic)");
    }
    if bytes[4] != 2 {
        return Err("loader: only 64-bit ELF (EI_CLASS=ELFCLASS64) is supported");
    }
    if bytes[5] != 1 {
        return Err("loader: only little-endian ELF (EI_DATA=ELFDATA2LSB) is supported");
    }
    let kind: u16 = get16(bytes, 16);
    if kind != 2 && kind != 3 {
        return Err(
            "loader: only ET_EXEC (static) or ET_DYN (PIE/shared library) ELF files are supported",
        );
    }
    let bias: u64 = match forced {
        Some(x) => x,
        None => if kind == 3 {
            PIE_BASE
        } else {
            0
        },
    };
    if get16(bytes, 18) != 0x3E {
        return Err("loader: not an x86_64 (EM_X86_64) ELF executable");
    }
    let entry: u64 = get64(bytes, 24);
    let off: u64 = get64(bytes, 32);
    let size: u16 = get16(bytes, 54);
    let count: u16 = get16(bytes, 56);
    let h = match Headers::read_all(bytes, off, size, count, bias) {
        Ok(h) => h,
        Err(e) => {
            return Err(e);
        },
    };
    if h.segments.len() == 0 {
        return Err("loader: ELF file has no PT_LOAD segments -- nothing to run");
    }
    let mut x = Link {
        relocations: Vec::new(),
        externs: Vec::new(),
        irelative: Vec::new(),
        needed: Vec::new(),
        exports: Vec::new(),
    };
    assert(x@.externs =~= Seq::empty() && x@.needed =~= Seq::empty() && x@.exports =~= Seq::empty());
    if let Some((start, len)) = h.dynamic {
        let d = match Dynamic::read(bytes, start, len) {
            Ok(d) => d,
            Err(e) => {
                return Err(e);
            },
        };
        x = match Link::read(bytes, &h.loads, &d, bias) {
            Ok(x) => x,
            Err(e) => {
                return Err(e);
            },
        };
    }
    let phdr_vaddr: u64 = find_headers(&h.loads, bias, off);
    Ok(
        Image {
            format: Format::Elf,
            entry: entry.wrapping_add(bias),
            segments: h.segments,
            relocations: x.relocations,
            extern_relocations: x.externs,
            irelative_relocations: x.irelative,
            needed: x.needed,
            exports: x.exports,
            phdr_vaddr,
            phentsize: size as u64,
            phnum: count as u64,
            interp: h.interp,
        },
    )
}

/// Takes an ELF executable apart.
pub fn parse_elf(bytes: &[u8]) -> (r: Result<Image, &'static str>)
    ensures
        match elf_image(bytes@, None) {
            Ok(x) => r matches Ok(i) && i@ == x,
            Err(e) => r matches Err(y) && y == e,
        },
{
    parse_elf_at(bytes, None)
}

} // verus!
