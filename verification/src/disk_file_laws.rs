//! What programs get of files on the disk: what reading an open file
//! delivers is what the file holds, from where it stands.
use crate::fat16_files::{inside_volume, law_parts_of_a_read_file};
use crate::fat16_laws::{cursor_ok, law_cursor_is_shortcut, rewound};
use crate::kernel::Kernel;
use crate::linux_abi::{zeros, ReplyV};
use crate::linux_files::read_on;
use crate::linux_laws::{
    answers, delivers, file_at, law_open, lemma_only_file, lemma_parts, made_up, names, only_file, part,
};
use crate::linux_syscall::{call_done, piece, Args};
use crate::linux_tasks::Machine;
use crate::task::{FileBacking, OpenFile, OpenV};
use crate::volume::{
    cluster_lba, content, file_entry, image_ok, min, next_cluster, opened, read_from, read_run, sector, splice,
    valid_cluster, File, Image, Layout, Place, Volume,
};
use crate::paging::Mem;
use crate::loader_laws::lemma_same_byte;
use crate::space::{lemma_lower, space_ok, vbyte};
use crate::vm::{faulted, lemma_region_from, mapping_at, region_from, table_ok, Table};
use crate::vm_laws::law_fault;
use vstd::prelude::*;

verus! {

proof fn lemma_run_room(
    d: Image,
    l: Layout,
    f: File,
    out: Seq<u8>,
    more: Seq<u8>,
    c: int,
    index: int,
    within: int,
    done: int,
    want: int,
)
    requires
        image_ok(d),
        0 <= within,
        0 <= done <= want <= out.len() <= more.len(),
        out == more.take(out.len() as int),
    ensures
        ({
            let a = read_run(d, l, f, out, c, index, within, done, want);
            let b = read_run(d, l, f, more, c, index, within, done, want);
            &&& a.0 == b.0
            &&& a.2 == b.2
            &&& b.1.len() == more.len()
            &&& a.1 == b.1.take(out.len() as int)
            &&& forall|i: int| out.len() <= i < more.len() ==> #[trigger] b.1[i] == more[i]
            &&& a.2 matches Ok(n) ==> n == want
        }),
    decreases want - done,
{
    if done < want && valid_cluster(l, c) && index < l.clusters() {
        let f1 = File { cursor_cluster: c as u32, cursor_index: index as u32, ..f };
        if let Ok(s) = sector(d, cluster_lba(l, c) + within / 512) {
            let lo = within % 512;
            let n = min(512 - lo, want - done);
            let x = s.subrange(lo, lo + n);
            let out1 = splice(out, done, x);
            let more1 = splice(more, done, x);
            assert(out1 =~= more1.take(out.len() as int));
            if within + n == l.sectors_per_cluster * 512 && done + n < want {
                if let Ok(next) = next_cluster(d, l, c) {
                    lemma_run_room(d, l, f1, out1, more1, next, index + 1, 0, done + n, want);
                }
            } else {
                lemma_run_room(d, l, f1, out1, more1, c, index, within + n, done + n, want);
            }
        }
    }
}

/// A file that is open is the one that a path leads to, and `all` is what
/// that holds: all of its clusters are of the volume and can be read.
pub open spec fn is_file(v: Volume, l: Layout, at: Place, path: Seq<u8>, f: File, all: Seq<u8>) -> bool {
    &&& image_ok(v.image)
    &&& v.layout == Some(l)
    &&& l.wf()
    &&& file_entry(v, at, path) matches Ok(e)
    &&& inside_volume(v.image, l, e)
    &&& f.first == e.cluster
    &&& f.size == e.size
    &&& content(v, at, path) == Ok::<Seq<u8>, &'static str>(all)
    &&& all.len() == e.size
    &&& cursor_ok(v.image, l, f)
}

proof fn lemma_disk_piece(v: Volume, l: Layout, at: Place, path: Seq<u8>, f: File, all: Seq<u8>, offset: int, want: nat)
    requires
        is_file(v, l, at, path, f, all),
        0 <= offset,
    ensures
        ({
            let got = part(all, offset, want as int);
            let (f1, out, n) = read_from(v.image, Some(l), f, offset, zeros(want));
            &&& n == Ok::<int, &'static str>(got.len() as int)
            &&& out.take(got.len() as int) == got
            &&& out.len() == want
            &&& forall|i: int| got.len() <= i < want ==> #[trigger] out[i] == 0
            &&& is_file(v, l, at, path, f1, all)
        }),
{
    let d = v.image;
    let e = file_entry(v, at, path)->Ok_0;
    let g = rewound(f);
    assert(g == opened(e));
    law_cursor_is_shortcut(d, l, f, offset, zeros(want));
    let f1 = read_from(d, Some(l), f, offset, zeros(want)).0;
    assert(f1.first == rewound(f1).first && f1.size == rewound(f1).size);
    law_parts_of_a_read_file(v, l, at, path, offset, want as int);
    let got = part(all, offset, want as int);
    if offset < e.size && want > 0 {
        let n = min(want as int, e.size - offset);
        let small = Seq::new(n as nat, |i: int| 0u8);
        assert(small =~= zeros(want).take(n));
        let per = l.sectors_per_cluster * 512;
        let target = offset / per;
        if let Ok(x) = crate::volume::advanced(d, l, g.first as int, target) {
            assert(0 <= offset % per) by (nonlinear_arith)
                requires
                    per > 0,
            ;
            lemma_run_room(d, l, g, small, zeros(want), x, target, offset % per, 0, n);
        }
        assert(got =~= all.subrange(min(offset, all.len() as int), min(offset + want, all.len() as int)));
        assert(0 <= target) by (nonlinear_arith)
            requires
                0 <= offset,
                per > 0,
                target == offset / per,
        ;
    } else {
        assert(got =~= Seq::empty());
        assert(zeros(want).take(0) =~= Seq::empty());
    }
}

/// An open file with the file on the disk that it stands for.
pub open spec fn on_disk(f: OpenV, v: Volume, l: Layout, at: Place, path: Seq<u8>, all: Seq<u8>) -> bool {
    &&& f.extra is None
    &&& f.data matches FileBacking::Disk(x)
    &&& is_file(v, l, at, path, x, all)
}

/// An open file is the one it was, but for where it stands and what cluster
/// it remembers.
pub open spec fn moved_to(f: OpenV, g: OpenV, pos: int) -> bool {
    g == OpenV { pos, data: g.data, ..f }
}

proof fn lemma_disk_result(
    f: OpenV,
    v: Volume,
    l: Layout,
    at: Place,
    path: Seq<u8>,
    all: Seq<u8>,
    want: nat,
    offset: Option<usize>,
)
    requires
        on_disk(f, v, l, at, path, all),
        0 <= f.pos,
    ensures
        ({
            let start = match offset {
                Some(o) => o as int,
                None => f.pos,
            };
            let got = part(all, start, want as int);
            let (g, out, n) = OpenFile::read_result(f, v.image, v.layout, zeros(want), offset);
            &&& n == Ok::<int, i64>(got.len() as int)
            &&& out.take(got.len() as int) == got
            &&& on_disk(g, v, l, at, path, all)
            &&& moved_to(
                f,
                g,
                if offset is None {
                    f.pos + got.len()
                } else {
                    f.pos
                },
            )
        }),
{
    let start = match offset {
        Some(o) => o as int,
        None => f.pos,
    };
    let x = f.data->Disk_0;
    lemma_disk_piece(v, l, at, path, x, all, start, want);
}

#[verifier::spinoff_prover]
#[verifier::rlimit(40)]
proof fn lemma_disk_read_on(
    f: OpenV,
    v: Volume,
    l: Layout,
    at: Place,
    path: Seq<u8>,
    all: Seq<u8>,
    len: int,
    offset: Option<u64>,
    done: Seq<u8>,
)
    requires
        on_disk(f, v, l, at, path, all),
        done.len() <= len <= 0x7fff_f000,
        0 <= f.pos,
        offset matches Some(o) ==> o < 0x8000_0000_0000_0000 && o + len <= usize::MAX,
    ensures
        ({
            let start = match offset {
                Some(o) => o + done.len(),
                None => f.pos,
            };
            let got = part(all, start, len - done.len());
            let (g, data, e) = read_on(f, v.image, v.layout, len, offset, done);
            &&& e is None
            &&& data == done + got
            &&& on_disk(g, v, l, at, path, all)
            &&& moved_to(
                f,
                g,
                if offset is None {
                    f.pos + got.len()
                } else {
                    f.pos
                },
            )
        }),
    decreases len - done.len(),
{
    let start = match offset {
        Some(o) => o + done.len(),
        None => f.pos,
    };
    let left = len - done.len();
    let want = if left <= 4096 {
        left
    } else {
        4096
    };
    let place: Option<usize> = match offset {
        Some(o) => Some((o + done.len()) as usize),
        None => None,
    };
    lemma_disk_result(f, v, l, at, path, all, want as nat, place);
    let (g, out, n) = OpenFile::read_result(f, v.image, v.layout, zeros(want as nat), place);
    let got = part(all, start, want);
    let more = done + got;
    if got.len() == want && done.len() < more.len() < len {
        lemma_disk_read_on(g, v, l, at, path, all, len, offset, more);
        lemma_parts(all, start, left, want);
        assert(more + part(all, start + want, left - want) =~= done + part(all, start, left));
    } else {
        assert(got =~= part(all, start, left));
    }
}

/// What a program gets of a file on the disk.
pub open spec fn got_bytes(r: ReplyV, at: u64, data: Seq<u8>) -> bool {
    if data.len() == 0 {
        answers(r, 0)
    } else {
        delivers(r, data.len() as int, at, data)
    }
}

/// Reading (0) a file of the disk delivers what it holds from where it
/// stands, as much as is asked for or there is, and it then stands behind it.
pub proof fn law_read_from_disk(
    before: Kernel,
    after: Kernel,
    a: Args,
    m: Machine,
    p: Seq<Seq<u8>>,
    r: ReplyV,
    l: Layout,
    at: Place,
    path: Seq<u8>,
    all: Seq<u8>,
)
    requires
        before.wf(),
        call_done(before, after, 0, a, m, p, r),
        a.a2 <= 0x7fff_f000,
        a.a1 + a.a2 <= u64::MAX,
        file_at(before, a.a0) matches Some(f) && on_disk(f, before.fs.volume(), l, at, path, all),
    ensures
        ({
            let f = file_at(before, a.a0)->0;
            let data = part(all, f.pos, a.a2 as int);
            &&& got_bytes(r, a.a1, data)
            &&& only_file(before, after, a.a0)
            &&& file_at(after, a.a0) matches Some(g)
            &&& moved_to(f, g, f.pos + data.len())
            &&& on_disk(g, after.fs.volume(), l, at, path, all)
        }),
{
    let f = file_at(before, a.a0)->0;
    let v = before.fs.volume();
    lemma_disk_read_on(f, v, l, at, path, all, a.a2 as int, None, Seq::empty());
    let data = part(all, f.pos, a.a2 as int);
    assert(Seq::<u8>::empty() + data =~= data);
    let (g, _, _) = read_on(f, v.image, v.layout, a.a2 as int, None, Seq::empty());
    lemma_only_file(before, after, a.a0, Some(g));
}

/// Reading at a place (17) of a file of the disk delivers what it holds from
/// there on, and leaves it where it stands.
pub proof fn law_read_at_from_disk(
    before: Kernel,
    after: Kernel,
    a: Args,
    m: Machine,
    p: Seq<Seq<u8>>,
    r: ReplyV,
    l: Layout,
    at: Place,
    path: Seq<u8>,
    all: Seq<u8>,
)
    requires
        before.wf(),
        call_done(before, after, 17, a, m, p, r),
        a.a2 <= 0x7fff_f000,
        a.a1 + a.a2 <= u64::MAX,
        a.a3 < 0x8000_0000_0000_0000,
        a.a3 + a.a2 <= usize::MAX,
        file_at(before, a.a0) matches Some(f) && on_disk(f, before.fs.volume(), l, at, path, all),
    ensures
        ({
            let f = file_at(before, a.a0)->0;
            &&& got_bytes(r, a.a1, part(all, a.a3 as int, a.a2 as int))
            &&& only_file(before, after, a.a0)
            &&& file_at(after, a.a0) matches Some(g)
            &&& moved_to(f, g, f.pos)
            &&& on_disk(g, after.fs.volume(), l, at, path, all)
        }),
{
    let f = file_at(before, a.a0)->0;
    let v = before.fs.volume();
    lemma_disk_read_on(f, v, l, at, path, all, a.a2 as int, Some(a.a3), Seq::empty());
    let data = part(all, a.a3 as int, a.a2 as int);
    assert(Seq::<u8>::empty() + data =~= data);
    let (g, _, _) = read_on(f, v.image, v.layout, a.a2 as int, Some(a.a3), Seq::empty());
    lemma_only_file(before, after, a.a0, Some(g));
}

/// A file that is opened (2) for reading and then read (0) gives a program
/// what the path holds, from its first byte on.
pub proof fn law_open_then_read(
    before: Kernel,
    mid: Kernel,
    after: Kernel,
    o: Args,
    a: Args,
    m: Machine,
    p: Seq<Seq<u8>>,
    q: Seq<Seq<u8>>,
    opened_as: ReplyV,
    r: ReplyV,
    l: Layout,
    path: Seq<u8>,
    all: Seq<u8>,
)
    requires
        before.wf(),
        mid.wf(),
        names(piece(p, 0), path),
        !made_up(path),
        o.a1 & 3 == 0,
        o.a1 & 0x1_0000 == 0,
        call_done(before, mid, 2, o, m, p, opened_as),
        opened_as.value < 0x8000_0000_0000_0000,
        a.a0 == opened_as.value,
        call_done(mid, after, 0, a, m, q, r),
        a.a2 <= 0x7fff_f000,
        a.a1 + a.a2 <= u64::MAX,
        crate::volume::status(before.fs.volume(), before.fs.place(), path) matches Ok((is_dir, _)) && !is_dir,
        file_entry(before.fs.volume(), before.fs.place(), path) matches Ok(e) && is_file(
            before.fs.volume(),
            l,
            before.fs.place(),
            path,
            opened(e),
            all,
        ),
    ensures
        got_bytes(r, a.a1, part(all, 0, a.a2 as int)),
        file_at(after, a.a0) matches Some(g) && g.pos == part(all, 0, a.a2 as int).len(),
{
    law_open(before, mid, 2, o, m, p, opened_as, path);
    let f = file_at(mid, a.a0)->0;
    let e = file_entry(before.fs.volume(), before.fs.place(), path)->Ok_0;
    assert(f.data->Disk_0 == opened(e));
    assert(mid.fs.volume() == before.fs.volume());
    law_read_from_disk(mid, after, a, m, q, r, l, before.fs.place(), path, all);
}

/// What a byte of mapped memory is, by what it is mapped from: a zero without
/// a file, and else the file's byte at that place, or a zero behind its end.
pub open spec fn backed(backing: Option<FileBacking>, v: Volume, l: Layout, at: Place, path: Seq<u8>, all: Seq<u8>) -> bool {
    match backing {
        None => all.len() == 0,
        Some(FileBacking::Static(data)) => all == data@,
        Some(FileBacking::Disk(f)) => is_file(v, l, at, path, f, all),
    }
}

/// A page that is brought in on a fault holds the file that is mapped there,
/// from the place on that belongs to it, and zeros behind the file's end.
#[verifier::spinoff_prover]
pub proof fn law_faulted_bytes(
    t: Table,
    s: Mem,
    v: Volume,
    cr3: u64,
    nx: bool,
    addr: u64,
    error: u64,
    l: Layout,
    at: Place,
    path: Seq<u8>,
    all: Seq<u8>,
    x: u64,
)
    requires
        s.wf(),
        space_ok(s, cr3),
        image_ok(v.image),
        table_ok(t),
        faulted(t, s, v.image, v.layout, cr3, nx, addr, error).2,
        mapping_at(t, cr3, (addr - addr % 4096) as u64) matches Some((_, _, backing, _)) && backed(
            backing,
            v,
            l,
            at,
            path,
            all,
        ),
        x / 4096 == addr / 4096,
    ensures
        ({
            let s1 = faulted(t, s, v.image, v.layout, cr3, nx, addr, error).1;
            let page = (addr - addr % 4096) as u64;
            let place = (mapping_at(t, cr3, page)->0).3 + (x - page);
            vbyte(s1.ram, cr3, x) == if 0 <= place < all.len() {
                Some(all[place])
            } else {
                Some(0u8)
            }
        }),
{
    let page = (addr - addr % 4096) as u64;
    law_fault(t, s, v.image, v.layout, cr3, nx, addr, error);
    lemma_region_from(t, cr3, page, 0);
    let r = t[region_from(t, cr3, page, 0)->0]->0;
    let offset = r.offset + (page - r.start);
    let bytes = crate::vm::page_contents(r.backing, v.image, v.layout, offset).1->Ok_0;
    let i = (x % 4096) as int;
    assert(x - page == i);
    lemma_lower(x);
    lemma_same_byte(page, x);
    assert(Seq::new(4096, |k: int| 0u8) =~= zeros(4096));
    if let Some(FileBacking::Disk(f)) = r.backing {
        lemma_disk_piece(v, l, at, path, f, all, offset, 4096);
        let got = part(all, offset, 4096);
        let (f1, out, n) = read_from(v.image, Some(l), f, offset, zeros(4096));
        assert(out.take(got.len() as int) == got);
        if i < got.len() {
            assert(out[i] == out.take(got.len() as int)[i]);
        }
    }
}

} // verus!
