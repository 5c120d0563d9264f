//! A FAT16 driver: 8.3 names, reading of VFAT long names, reading and writing
//! of whole files, partial reads, and subdirectories with a current directory
//! that is tracked here.
//!
//! Text (names and paths) is held as its UTF-8 bytes.
use crate::le::{get16, get32, le16, put16, put32};
use crate::volume::{
    advanced, allocated, block, chain_budget, chain_sectors, chars_numbered, chars_ordered, cluster_lba, components,
    content, content_range, dir_sectors, dir_sectors_per_cluster, entry_of, fat_get, fat_lba, fat_set, file_entry,
    file_record, first_named, found, free_cluster_from, freed, fresh_listing, full, image_ok, in_chain, last_index,
    latin, lemma_steps_ok, lemma_until_slash, lfn_chars, lfn_offset, listed_record, listed_records, listed_sectors,
    listing, long_text, min, next_cluster, next_or_end, opened, parent_and_name, parse_boot, path_text, place_ok,
    read_chain, read_from, read_run, read_sectors, record, record_stored, refusal, removed, resolved, root_place, run,
    same_name, saved, searched_chain, searched_records, searched_sectors, sector, short_name, short_text, slot_for,
    splice, status, stepped, stepped_all, stored, text_until_nul, trimmed, until_slash, upper, utf8, valid_cluster,
    walked, writable, write_run, DirLocation, Entry, File, Image, Layout, Listing, Place, Search, Volume,
    ATTR_DIRECTORY, ATTR_LFN, ATTR_VOLUME_ID, ENTRY_DELETED, ENTRY_DOT, ENTRY_FREE, MAX_CHAIN, NO_SECTOR,
};
use vstd::prelude::*;
use vstd::slice::{slice_subrange, slice_to_vec};

verus! {

/// The sectors of a disk; for one that the drive cannot read or write, what
/// it answers.
pub struct Disk {
    pub sectors: Vec<Result<Vec<u8>, &'static str>>,
}

pub open spec fn sector_view(s: Result<Vec<u8>, &'static str>) -> Result<Seq<u8>, &'static str> {
    match s {
        Ok(v) => Ok(v@),
        Err(e) => Err(e),
    }
}

impl Disk {
    pub open spec fn view(self) -> Image {
        self.sectors@.map_values(|s: Result<Vec<u8>, &'static str>| sector_view(s))
    }
}

/// One file or directory, as its directory entry describes it.
pub struct DirEntry {
    pub name: Vec<u8>,
    pub is_dir: bool,
    pub size: u32,
    pub cluster: u32,
}

impl DirEntry {
    pub open spec fn view(self) -> Entry {
        Entry { name: self.name@, is_dir: self.is_dir, size: self.size, cluster: self.cluster }
    }
}

pub open spec fn entries_view(s: Seq<DirEntry>) -> Seq<Entry> {
    s.map_values(|e: DirEntry| e@)
}

pub open spec fn stack_view(s: Seq<(Vec<u8>, u32)>) -> Seq<(Seq<u8>, u32)> {
    s.map_values(|p: (Vec<u8>, u32)| (p.0@, p.1))
}

/// The driver's state: the disk, the layout of the mounted volume, the
/// current directory, and how many sectors were read and written.
pub struct Fs {
    pub disk: Disk,
    pub layout: Option<Layout>,
    pub location: DirLocation,
    pub stack: Vec<(Vec<u8>, u32)>,
    pub sectors_read: u64,
    pub sectors_written: u64,
}

impl Fs {
    pub open spec fn volume(self) -> Volume {
        Volume { image: self.disk@, layout: self.layout }
    }

    pub open spec fn place(self) -> Place {
        Place { location: self.location, stack: stack_view(self.stack@) }
    }

    /// The current directory is the last of those that lead to it.
    pub open spec fn wf(self) -> bool {
        &&& image_ok(self.disk@)
        &&& self.layout matches Some(l) ==> l.wf()
        &&& place_ok(self.place())
    }

    /// `self` is `before`, but for how many sectors have been read.
    pub open spec fn only_read(self, before: Fs) -> bool {
        &&& self.disk == before.disk
        &&& self.layout == before.layout
        &&& self.location == before.location
        &&& self.stack == before.stack
        &&& self.sectors_written == before.sectors_written
    }

    /// `self` is `before`, but for the disk and how many sectors have been
    /// read and written.
    pub open spec fn only_disk(self, before: Fs) -> bool {
        &&& self.layout == before.layout
        &&& self.location == before.location
        &&& self.stack == before.stack
    }

    /// A driver for a disk that has not been mounted.
    pub fn new(disk: Disk) -> (r: Fs)
        requires
            image_ok(disk@),
        ensures
            r.wf(),
            r.volume() == (Volume { image: disk@, layout: None }),
            r.place() == root_place(),
            r.sectors_read == 0,
            r.sectors_written == 0,
    {
        let r = Fs {
            disk,
            layout: None,
            location: DirLocation::Root,
            stack: Vec::new(),
            sectors_read: 0,
            sectors_written: 0,
        };
        assert(r.place().stack =~= Seq::empty());
        r
    }

    /// Reads one sector, and counts it if it could be read.
    fn read_sector(&mut self, lba: u32) -> (r: Result<Vec<u8>, &'static str>)
        requires
            image_ok(old(self).disk@),
        ensures
            final(self).only_read(*old(self)),
            match sector(old(self).disk@, lba as int) {
                Ok(s) => r matches Ok(v) && v@ == s && s.len() == 512 && final(self).sectors_read == (
                    old(self).sectors_read + 1) % 0x1_0000_0000_0000_0000,
                Err(e) => r == Err::<Vec<u8>, &'static str>(e) && final(self).sectors_read == old(
                    self,
                ).sectors_read,
            },
    {
        let at: usize = lba as usize;
        if at >= self.disk.sectors.len() {
            return Err(NO_SECTOR);
        }
        assert(self.disk@[at as int] == sector_view(self.disk.sectors@[at as int]));
        match &self.disk.sectors[at] {
            Err(e) => Err(*e),
            Ok(v) => {
                let out: Vec<u8> = slice_to_vec(v.as_slice());
                self.sectors_read = self.sectors_read.wrapping_add(1);
                Ok(out)
            },
        }
    }

    /// Writes one sector, and counts it if it could be written.
    fn write_sector(&mut self, lba: u32, buf: Vec<u8>) -> (r: Result<(), &'static str>)
        requires
            image_ok(old(self).disk@),
            buf@.len() == 512,
        ensures
            final(self).only_disk(*old(self)),
            image_ok(final(self).disk@),
            final(self).sectors_read == old(self).sectors_read,
            match sector(old(self).disk@, lba as int) {
                Ok(s) => r == Ok::<(), &'static str>(()) && final(self).disk@ == old(self).disk@.update(
                    lba as int,
                    Ok(buf@),
                ) && final(self).sectors_written == (old(self).sectors_written + 1) % 0x1_0000_0000_0000_0000,
                Err(e) => r == Err::<(), &'static str>(e) && *final(self) == *old(self),
            },
    {
        let at: usize = lba as usize;
        if at >= self.disk.sectors.len() {
            return Err(NO_SECTOR);
        }
        assert(self.disk@[at as int] == sector_view(self.disk.sectors@[at as int]));
        if let Err(e) = &self.disk.sectors[at] {
            return Err(*e);
        }
        let ghost before = self.disk@;
        self.disk.sectors[at] = Ok(buf);
        assert(self.disk@ =~= before.update(at as int, Ok(buf@)));
        self.sectors_written = self.sectors_written.wrapping_add(1);
        Ok(())
    }
}

/// Reads the layout of the volume from its boot sector and mounts it, with
/// the root as the current directory. A volume that cannot be mounted leaves
/// what is mounted as it was.
pub fn init(fs: &mut Fs) -> (r: Result<(), &'static str>)
    requires
        old(fs).wf(),
    ensures
        final(fs).wf(),
        final(fs).disk == old(fs).disk,
        final(fs).sectors_written == old(fs).sectors_written,
        final(fs).sectors_read == if sector(old(fs).disk@, 0) is Ok {
            (old(fs).sectors_read + 1) % 0x1_0000_0000_0000_0000
        } else {
            old(fs).sectors_read as int
        },
        match sector(old(fs).disk@, 0) {
            Err(e) => r == Err::<(), &'static str>(e) && final(fs).only_read(*old(fs)),
            Ok(boot) => match parse_boot(boot) {
                Err(e) => r == Err::<(), &'static str>(e) && final(fs).only_read(*old(fs)),
                Ok(l) => r is Ok && final(fs).layout == Some(l) && final(fs).place() == root_place(),
            },
        },
{
    let boot: Vec<u8> = match fs.read_sector(0) {
        Ok(b) => b,
        Err(e) => {
            return Err(e);
        },
    };
    if boot[510] != 0x55 || boot[511] != 0xAA {
        return Err("fat16: missing boot sector signature (no filesystem on disk?)");
    }
    let s = boot.as_slice();
    let bytes_per_sector: u32 = get16(s, 11) as u32;
    let sectors_per_cluster: u32 = boot[13] as u32;
    let reserved: u32 = get16(s, 14) as u32;
    let num_fats: u32 = boot[16] as u32;
    let root_entry_count: u32 = get16(s, 17) as u32;
    let total_16: u32 = get16(s, 19) as u32;
    let fat_sectors: u32 = get16(s, 22) as u32;
    let total_32: u32 = get32(s, 32);
    if bytes_per_sector != 512 {
        return Err("fat16: only 512-byte sectors are supported");
    }
    if fat_sectors == 0 {
        return Err("fat16: FAT32 volume (or malformed BPB) -- not supported");
    }
    let total_sectors: u32 = if total_16 != 0 {
        total_16
    } else {
        total_32
    };
    proof {
        lemma_fat_bound(num_fats as int, fat_sectors as int);
    }
    let root_dir_start_lba: u32 = reserved + num_fats * fat_sectors;
    let root_dir_sectors: u32 = (root_entry_count * 32 + 511) / 512;
    let data_start_lba: u32 = root_dir_start_lba + root_dir_sectors;
    fs.layout = Some(
        Layout {
            bytes_per_sector,
            sectors_per_cluster,
            fat_start_lba: reserved,
            fat_sectors,
            num_fats,
            root_dir_start_lba,
            root_dir_sectors,
            root_entry_count,
            data_start_lba,
            total_sectors,
        },
    );
    fs.location = DirLocation::Root;
    fs.stack = Vec::new();
    assert(fs.place().stack =~= Seq::empty());
    Ok(())
}

proof fn lemma_fat_bound(n: int, s: int)
    by (nonlinear_arith)
    requires
        0 <= n <= 255,
        0 <= s <= 0xFFFF,
    ensures
        0 <= n * s <= 255 * 0xFFFF,
{
}

proof fn lemma_layout(l: Layout)
    requires
        l.wf(),
    ensures
        l.small(),
{
    lemma_fat_bound(l.num_fats as int, l.fat_sectors as int);
}

proof fn lemma_cluster_lba(l: Layout, c: int)
    requires
        l.wf(),
        2 <= c <= 0x8000_0000,
    ensures
        0 <= cluster_lba(l, c),
        c <= 0xFFFF ==> cluster_lba(l, c) <= 0x300_0000,
{
    lemma_layout(l);
    assert(0 <= (c - 2) * l.sectors_per_cluster) by (nonlinear_arith)
        requires
            2 <= c,
            0 <= l.sectors_per_cluster,
    ;
    if c <= 0xFFFF {
        assert((c - 2) * l.sectors_per_cluster <= 0xFFFF * 255) by (nonlinear_arith)
            requires
                2 <= c <= 0xFFFF,
                0 <= l.sectors_per_cluster <= 255,
        ;
    }
}

/// The first sector of a cluster.
fn cluster_to_lba(l: Layout, cluster: u32) -> (r: u32)
    requires
        l.wf(),
        2 <= cluster <= 0xFFFF,
    ensures
        r == cluster_lba(l, cluster as int),
        r <= 0x300_0000,
{
    proof {
        lemma_cluster_lba(l, cluster as int);
        lemma_layout(l);
        assert(0 <= (cluster - 2) * l.sectors_per_cluster <= 0xFFFF * 255) by (nonlinear_arith)
            requires
                2 <= cluster <= 0xFFFF,
                0 <= l.sectors_per_cluster <= 255,
        ;
    }
    l.data_start_lba + (cluster - 2) * l.sectors_per_cluster
}

impl Fs {
    /// The table entry of a cluster.
    fn fat_entry(&mut self, l: Layout, cluster: u32) -> (r: Result<u16, &'static str>)
        requires
            image_ok(old(self).disk@),
            l.wf(),
            cluster < 0x8000_0000,
        ensures
            final(self).only_read(*old(self)),
            match fat_get(old(self).disk@, l, cluster as int) {
                Some(v) => r == Ok::<u16, &'static str>(v),
                None => r == Err::<u16, &'static str>(refusal(old(self).disk@, fat_lba(l, cluster as int))),
            },
    {
        let byte: u32 = cluster * 2;
        let lba: u32 = l.fat_start_lba + byte / 512;
        let off: usize = (byte % 512) as usize;
        match self.read_sector(lba) {
            Ok(buf) => Ok(get16(buf.as_slice(), off)),
            Err(e) => Err(e),
        }
    }
}

/// A walk over the sectors of a directory.
enum DirSectors {
    Root { next: u32, end: u32 },
    Chain { cluster: u32, sector_in_cluster: u32, left: u32 },
}

impl DirSectors {
    spec fn rest(self, d: Image, l: Layout) -> Seq<int> {
        match self {
            DirSectors::Root { next, end } => run(next as int, end - next),
            DirSectors::Chain { cluster, sector_in_cluster, left } => if !in_chain(cluster as int) || left
                == 0 {
                Seq::empty()
            } else {
                run(
                    cluster_lba(l, cluster as int) + sector_in_cluster,
                    dir_sectors_per_cluster(l) - sector_in_cluster,
                ) + chain_sectors(d, l, next_or_end(d, l, cluster as int), (left - 1) as nat)
            },
        }
    }

    spec fn wf(self, l: Layout) -> bool {
        match self {
            DirSectors::Root { next, end } => next <= end,
            DirSectors::Chain { cluster, sector_in_cluster, left } => sector_in_cluster
                < dir_sectors_per_cluster(l) && left <= MAX_CHAIN,
        }
    }

    fn new(l: Layout, location: DirLocation, Ghost(d): Ghost<Image>) -> (r: DirSectors)
        requires
            l.wf(),
        ensures
            r.wf(l),
            r.rest(d, l) == dir_sectors(d, l, location),
    {
        proof {
            lemma_layout(l);
        }
        match location {
            DirLocation::Root => DirSectors::Root {
                next: l.root_dir_start_lba,
                end: l.root_dir_start_lba + l.root_dir_sectors,
            },
            DirLocation::Cluster(c) => DirSectors::Chain { cluster: c, sector_in_cluster: 0, left: MAX_CHAIN },
        }
    }

    /// Hands out the next sector of the directory.
    fn next(&mut self, fs: &mut Fs, l: Layout) -> (r: Option<u32>)
        requires
            image_ok(old(fs).disk@),
            l.wf(),
            old(self).wf(l),
        ensures
            final(fs).only_read(*old(fs)),
            final(self).wf(l),
            ({
                let rest = old(self).rest(old(fs).disk@, l);
                match r {
                    Some(lba) => rest.len() > 0 && lba == rest[0] && final(self).rest(old(fs).disk@, l)
                        == rest.drop_first(),
                    None => rest.len() == 0 && *final(self) == *old(self),
                }
            }),
    {
        let ghost d = fs.disk@;
        let ghost rest = self.rest(d, l);
        match *self {
            DirSectors::Root { next, end } => {
                if next >= end {
                    return None;
                }
                *self = DirSectors::Root { next: next + 1, end };
                assert(self.rest(d, l) =~= rest.drop_first());
                Some(next)
            },
            DirSectors::Chain { cluster, sector_in_cluster, left } => {
                if cluster < 2 || cluster >= 0xFFF8 || left == 0 {
                    return None;
                }
                let lba: u32 = cluster_to_lba(l, cluster) + sector_in_cluster;
                let ghost tail = chain_sectors(d, l, next_or_end(d, l, cluster as int), (left - 1) as nat);
                let ghost head = run(
                    cluster_lba(l, cluster as int) + sector_in_cluster,
                    dir_sectors_per_cluster(l) - sector_in_cluster,
                );
                assert(rest == head + tail);
                assert(rest[0] == lba);
                if sector_in_cluster + 1 >= l.sectors_per_cluster {
                    let next: u32 = match fs.fat_entry(l, cluster) {
                        Ok(v) => v as u32,
                        Err(_) => 0xFFFF,
                    };
                    *self = DirSectors::Chain { cluster: next, sector_in_cluster: 0, left: left - 1 };
                    assert(head.len() == 1);
                    assert(rest.drop_first() =~= tail);
                    assert(self.rest(d, l) =~= tail);
                } else {
                    *self = DirSectors::Chain { cluster, sector_in_cluster: sector_in_cluster + 1, left };
                    assert(head.drop_first() =~= run(
                        cluster_lba(l, cluster as int) + sector_in_cluster + 1,
                        dir_sectors_per_cluster(l) - sector_in_cluster - 1,
                    ));
                    assert(self.rest(d, l) =~= rest.drop_first());
                }
                Some(lba)
            },
        }
    }
}

/// Appends one character to a text.
fn push_utf8(out: &mut Vec<u8>, c: u16)
    ensures
        final(out)@ == old(out)@ + utf8(c),
{
    if c < 0x80 {
        out.push(c as u8);
    } else if c < 0x800 {
        out.push((0xC0 + c / 64) as u8);
        out.push((0x80 + c % 64) as u8);
    } else {
        out.push((0xE0 + c / 4096) as u8);
        out.push((0x80 + c / 64 % 64) as u8);
        out.push((0x80 + c % 64) as u8);
    }
    assert(out@ =~= old(out)@ + utf8(c));
}

/// How long `s` is without the spaces at its end.
fn trimmed_len(s: &[u8]) -> (r: usize)
    ensures
        r <= s@.len(),
        trimmed(s@) == s@.take(r as int),
{
    let mut n: usize = s.len();
    assert(s@.take(n as int) =~= s@);
    while n > 0 && s[n - 1] == 0x20
        invariant
            n <= s@.len(),
            trimmed(s@) == trimmed(s@.take(n as int)),
        decreases n,
    {
        assert(s@.take(n as int).drop_last() =~= s@.take(n - 1));
        n -= 1;
    }
    n
}

/// Appends bytes to a text, each as one character.
fn push_latin(out: &mut Vec<u8>, s: &[u8], n: usize)
    requires
        n <= s@.len(),
    ensures
        final(out)@ == old(out)@ + latin(s@.take(n as int)),
{
    let ghost before = out@;
    assert(out@ =~= before + latin(s@.take(0)));
    for i in 0..n
        invariant
            n <= s@.len(),
            out@ == before + latin(s@.take(i as int)),
    {
        assert(s@.take(i + 1).drop_last() =~= s@.take(i as int));
        push_utf8(out, s[i] as u16);
        assert(out@ =~= before + latin(s@.take(i + 1)));
    }
}

/// The name that eleven bytes of a directory entry spell.
fn format_short_name(raw: &[u8]) -> (r: Vec<u8>)
    requires
        raw@.len() == 11,
    ensures
        r@ == short_text(raw@),
{
    let name = slice_subrange(raw, 0, 8);
    let ext = slice_subrange(raw, 8, 11);
    let name_end: usize = trimmed_len(name);
    let ext_end: usize = trimmed_len(ext);
    let mut out: Vec<u8> = Vec::new();
    push_latin(&mut out, name, name_end);
    assert(out@ =~= latin(trimmed(name@)));
    if ext_end > 0 {
        out.push(0x2E);
        push_latin(&mut out, ext, ext_end);
        assert(out@ =~= latin(trimmed(name@)) + seq![0x2Eu8] + latin(trimmed(ext@)));
    }
    out
}

/// The entry that a 32-byte directory record describes, by its short name.
fn decode_entry(chunk: &[u8]) -> (r: DirEntry)
    requires
        chunk@.len() == 32,
    ensures
        r@ == entry_of(chunk@),
{
    assert(chunk.len() == 32);
    DirEntry {
        name: format_short_name(slice_subrange(chunk, 0, 11)),
        is_dir: chunk[11] & ATTR_DIRECTORY != 0,
        size: get32(chunk, 28),
        cluster: get16(chunk, 26) as u32,
    }
}

fn is_skippable_attr(attr: u8) -> (r: bool)
    ensures
        r == (attr & ATTR_VOLUME_ID != 0),
{
    attr & ATTR_VOLUME_ID != 0
}

/// The thirteen characters of a long-name entry.
fn decode_lfn_chars(chunk: &[u8]) -> (r: Vec<u16>)
    requires
        chunk@.len() == 32,
    ensures
        r@ == lfn_chars(chunk@),
{
    assert(chunk.len() == 32);
    let mut chars: Vec<u16> = Vec::new();
    for n in 0..13usize
        invariant
            chunk.len() == 32,
            chars@.len() == n,
            forall|k: int| 0 <= k < n ==> #[trigger] chars@[k] == le16(chunk@, lfn_offset(k)),
    {
        let at: usize = if n < 5 {
            1 + 2 * n
        } else if n < 11 {
            14 + 2 * (n - 5)
        } else {
            28 + 2 * (n - 11)
        };
        chars.push(get16(chunk, at));
    }
    assert(chars@ =~= lfn_chars(chunk@));
    chars
}

spec fn parts_view(parts: Seq<(u8, Vec<u16>)>) -> Seq<(u8, Seq<u16>)> {
    parts.map_values(|p: (u8, Vec<u16>)| (p.0, p.1@))
}

/// The long name that the parts of a long name spell.
fn reconstruct_long_name(parts: &Vec<(u8, Vec<u16>)>) -> (r: Vec<u8>)
    ensures
        r@ == long_text(parts_view(parts@)),
{
    let ghost v = parts_view(parts@);
    let mut chars: Vec<u16> = Vec::new();
    let mut k: u8 = 0;
    while k < 32
        invariant
            k <= 32,
            v == parts_view(parts@),
            chars@ == chars_ordered(v, k as int),
        decreases 32 - k,
    {
        let ghost before = chars@;
        let n: usize = parts.len();
        assert(chars@ =~= before + chars_numbered(v, k as int, 0));
        for i in 0..n
            invariant
                n == parts@.len(),
                v == parts_view(parts@),
                chars@ == before + chars_numbered(v, k as int, i as int),
        {
            assert(v[i as int] == (parts@[i as int].0, parts@[i as int].1@));
            if parts[i].0 == k {
                let part = &parts[i].1;
                let m: usize = part.len();
                let ghost so_far = chars@;
                assert(part@.take(0) =~= Seq::empty());
                for j in 0..m
                    invariant
                        m == part@.len(),
                        chars@ == so_far + part@.take(j as int),
                {
                    chars.push(part[j]);
                    assert(chars@ =~= so_far + part@.take(j + 1));
                }
                assert(part@.take(m as int) =~= part@);
                assert(chars@ =~= before + chars_numbered(v, k as int, i + 1));
            }
        }
        k += 1;
    }
    let ghost all = chars@;
    let mut out: Vec<u8> = Vec::new();
    let mut i: usize = 0;
    assert(all.skip(0) =~= all);
    assert(out@ + text_until_nul(all) =~= text_until_nul(all));
    while i < chars.len() && chars[i] != 0
        invariant
            i <= chars@.len(),
            chars@ == all,
            out@ + text_until_nul(all.skip(i as int)) == text_until_nul(all),
        decreases chars@.len() - i,
    {
        let c: u16 = chars[i];
        let shown: u16 = if 0xD800 <= c && c <= 0xDFFF {
            0x3F
        } else {
            c
        };
        assert(all.skip(i as int)[0] == c);
        assert(all.skip(i as int).drop_first() =~= all.skip(i + 1));
        let ghost was = out@;
        push_utf8(&mut out, shown);
        assert(out@ + text_until_nul(all.skip(i + 1)) =~= was + (utf8(shown) + text_until_nul(all.skip(i + 1))));
        i += 1;
    }
    assert(text_until_nul(all.skip(i as int)) =~= Seq::empty()) by {
        if i < all.len() {
            assert(all.skip(i as int)[0] == all[i as int]);
        }
    }
    assert(out@ =~= text_until_nul(all));
    out
}

/// A directory listing under way.
struct Lister {
    parts: Vec<(u8, Vec<u16>)>,
    entries: Vec<DirEntry>,
    done: bool,
}

impl Lister {
    spec fn view(self) -> Listing {
        Listing { parts: parts_view(self.parts@), entries: entries_view(self.entries@), done: self.done }
    }

    /// Takes one more record into account.
    fn record(&mut self, chunk: &[u8])
        requires
            chunk@.len() == 32,
        ensures
            final(self)@ == listed_record(old(self)@, chunk@),
    {
        assert(chunk.len() == 32);
        assert(parts_view(Seq::<(u8, Vec<u16>)>::empty()) =~= Seq::empty());
        if self.done {
            return;
        }
        let first: u8 = chunk[0];
        if first == ENTRY_FREE {
            self.done = true;
        } else if first == ENTRY_DELETED {
            self.parts = Vec::new();
        } else if chunk[11] == ATTR_LFN {
            let chars = decode_lfn_chars(chunk);
            let ghost was = self.parts@;
            self.parts.push((first & 0x1F, chars));
            assert(parts_view(self.parts@) =~= parts_view(was).push((first & 0x1F, chars@)));
        } else if first == ENTRY_DOT || is_skippable_attr(chunk[11]) {
            self.parts = Vec::new();
        } else {
            let mut e = decode_entry(chunk);
            let ghost plain = e@;
            if self.parts.len() > 0 {
                e.name = reconstruct_long_name(&self.parts);
            }
            let ghost was = self.entries@;
            self.parts = Vec::new();
            self.entries.push(e);
            assert(entries_view(self.entries@) =~= entries_view(was).push(e@));
        }
    }

    /// Takes all records of a sector into account.
    fn sector(&mut self, buf: &Vec<u8>)
        requires
            buf@.len() == 512,
        ensures
            final(self)@ == listed_records(old(self)@, buf@, 16),
    {
        let ghost x = self@;
        for k in 0..16usize
            invariant
                buf@.len() == 512,
                self@ == listed_records(x, buf@, k as int),
        {
            let chunk = slice_subrange(buf.as_slice(), 32 * k, 32 * k + 32);
            assert(chunk@ =~= record(buf@, k as int));
            self.record(chunk);
        }
    }
}

impl Fs {
    /// The entries of a directory.
    fn list_dir_at(&mut self, location: DirLocation) -> (r: Result<Vec<DirEntry>, &'static str>)
        requires
            old(self).wf(),
        ensures
            final(self).only_read(*old(self)),
            match listing(old(self).volume(), location) {
                Ok(entries) => r matches Ok(v) && entries_view(v@) == entries,
                Err(e) => r == Err::<Vec<DirEntry>, &'static str>(e),
            },
    {
        let l = match self.layout {
            Some(l) => l,
            None => {
                return Err("fat16: not initialized (init() failed or wasn't called)");
            },
        };
        let ghost d = self.disk@;
        let mut x = Lister { parts: Vec::new(), entries: Vec::new(), done: false };
        assert(x@.parts =~= Seq::empty() && x@.entries =~= Seq::empty());
        let mut sectors = DirSectors::new(l, location, Ghost(d));
        let ghost all = sectors.rest(d, l);
        while !x.done
            invariant
                l.wf(),
                image_ok(d),
                d == self.disk@,
                self.only_read(*old(self)),
                sectors.wf(l),
                listed_sectors(d, x@, sectors.rest(d, l)) == listed_sectors(d, fresh_listing(), all),
                listing(old(self).volume(), location) == listed_sectors(d, fresh_listing(), all),
            decreases
                    sectors.rest(d, l).len(),
                    if x.done {
                        0int
                    } else {
                        1int
                    },
        {
            match sectors.next(self, l) {
                None => {
                    x.done = true;
                },
                Some(lba) => match self.read_sector(lba) {
                    Err(e) => {
                        return Err(e);
                    },
                    Ok(buf) => {
                        x.sector(&buf);
                    },
                },
            }
        }
        Ok(x.entries)
    }
}

/// The entries of the current directory.
pub fn list_current_dir(fs: &mut Fs) -> (r: Result<Vec<DirEntry>, &'static str>)
    requires
        old(fs).wf(),
    ensures
        final(fs).only_read(*old(fs)),
        match listing(old(fs).volume(), old(fs).location) {
            Ok(entries) => r matches Ok(v) && entries_view(v@) == entries,
            Err(e) => r == Err::<Vec<DirEntry>, &'static str>(e),
        },
{
    let location = fs.location;
    fs.list_dir_at(location)
}

fn to_upper(b: u8) -> (r: u8)
    ensures
        r == upper(b),
{
    if 0x61 <= b && b <= 0x7A {
        b - 0x20
    } else {
        b
    }
}

/// Whether two names are equal but for the case of ASCII letters.
fn eq_ignore_case(a: &[u8], b: &[u8]) -> (r: bool)
    ensures
        r == same_name(a@, b@),
{
    let n: usize = a.len();
    if n != b.len() {
        return false;
    }
    for i in 0..n
        invariant
            n == a@.len(),
            n == b@.len(),
            forall|k: int| 0 <= k < i ==> upper(#[trigger] a@[k]) == upper(b@[k]),
    {
        if to_upper(a[i]) != to_upper(b[i]) {
            assert(upper(a@[i as int]) != upper(b@[i as int]));
            return false;
        }
    }
    true
}

/// The last position of `b` in `s`.
fn find_last(s: &[u8], b: u8) -> (r: Option<usize>)
    ensures
        match r {
            Some(i) => last_index(s@, b) == Some(i as int) && i < s@.len() && s@[i as int] == b,
            None => last_index(s@, b) is None,
        },
{
    let mut n: usize = s.len();
    assert(s@.take(n as int) =~= s@);
    while n > 0
        invariant
            n <= s@.len(),
            last_index(s@, b) == last_index(s@.take(n as int), b),
        decreases n,
    {
        assert(s@.take(n as int).last() == s@[n - 1]);
        if s[n - 1] == b {
            return Some(n - 1);
        }
        assert(s@.take(n as int).drop_last() =~= s@.take(n - 1));
        n -= 1;
    }
    None
}

/// The eleven bytes under which a name is stored.
fn to_short_name(name: &[u8]) -> (r: Vec<u8>)
    ensures
        r@ == short_name(name@),
        r@.len() == 11,
{
    let n: usize = name.len();
    let (base, ext) = match find_last(name, 0x2E) {
        Some(i) => (slice_subrange(name, 0, i), slice_subrange(name, i + 1, n)),
        None => (name, slice_subrange(name, n, n)),
    };
    let ghost split = match last_index(name@, 0x2E) {
        Some(i) => (name@.take(i), name@.skip(i + 1)),
        None => (name@, Seq::empty()),
    };
    assert(base@ =~= split.0 && ext@ =~= split.1);
    let mut out: Vec<u8> = Vec::new();
    for i in 0..11usize
        invariant
            out@.len() == i,
            forall|k: int|
                0 <= k < i ==> #[trigger] out@[k] == if k < 8 && k < base@.len() {
                    upper(base@[k])
                } else if 8 <= k && k - 8 < ext@.len() {
                    upper(ext@[k - 8])
                } else {
                    0x20u8
                },
    {
        if i < 8 && i < base.len() {
            out.push(to_upper(base[i]));
        } else if 8 <= i && i - 8 < ext.len() {
            out.push(to_upper(ext[i - 8]));
        } else {
            out.push(0x20);
        }
    }
    assert(out@ =~= short_name(name@));
    out
}

fn copy_stack(stack: &Vec<(Vec<u8>, u32)>) -> (r: Vec<(Vec<u8>, u32)>)
    ensures
        stack_view(r@) == stack_view(stack@),
{
    let n: usize = stack.len();
    let mut out: Vec<(Vec<u8>, u32)> = Vec::new();
    for i in 0..n
        invariant
            n == stack@.len(),
            out@.len() == i,
            forall|k: int|
                0 <= k < i ==> (#[trigger] out@[k]).0@ == stack@[k].0@ && out@[k].1 == stack@[k].1,
    {
        let name: Vec<u8> = slice_to_vec(stack[i].0.as_slice());
        out.push((name, stack[i].1));
    }
    assert(stack_view(out@) =~= stack_view(stack@));
    out
}

/// A path's directory and the name in it.
fn split_path(path: &[u8]) -> (r: (&[u8], &[u8]))
    ensures
        (r.0@, r.1@) == parent_and_name(path@),
{
    let n: usize = path.len();
    match find_last(path, 0x2F) {
        None => {
            let empty = slice_subrange(path, 0, 0);
            assert(empty@ =~= Seq::empty());
            (empty, path)
        },
        Some(i) => {
            let name = slice_subrange(path, i + 1, n);
            let dir = if i == 0 {
                slice_subrange(path, 0, 1)
            } else {
                slice_subrange(path, 0, i)
            };
            assert(name@ =~= path@.skip(i + 1));
            assert(dir@ =~= parent_and_name(path@).0);
            (dir, name)
        },
    }
}

impl Fs {
    /// Looks a name up in a directory.
    fn find_in_dir(&mut self, location: DirLocation, name: &[u8]) -> (r: Result<DirEntry, &'static str>)
        requires
            old(self).wf(),
        ensures
            final(self).only_read(*old(self)),
            match found(old(self).volume(), location, name@) {
                Ok(e) => r matches Ok(x) && x@ == e,
                Err(e) => r == Err::<DirEntry, &'static str>(e),
            },
    {
        let entries: Vec<DirEntry> = match self.list_dir_at(location) {
            Ok(v) => v,
            Err(e) => {
                return Err(e);
            },
        };
        let ghost all = entries_view(entries@);
        let n: usize = entries.len();
        assert(all.skip(0) =~= all);
        for i in 0..n
            invariant
                n == entries@.len(),
                all == entries_view(entries@),
                first_named(all, name@) == first_named(all.skip(i as int), name@),
                listing(old(self).volume(), location) == Ok::<Seq<Entry>, &'static str>(all),
                self.only_read(*old(self)),
        {
            assert(all.skip(i as int)[0] == entries@[i as int]@);
            assert(all.skip(i as int).drop_first() =~= all.skip(i + 1));
            let e = &entries[i];
            if eq_ignore_case(e.name.as_slice(), name) {
                return Ok(
                    DirEntry {
                        name: slice_to_vec(e.name.as_slice()),
                        is_dir: e.is_dir,
                        size: e.size,
                        cluster: e.cluster,
                    },
                );
            }
        }
        Err("no such file or directory")
    }

    /// The directory that a path names, and the directories that lead there.
    fn walk_path(&mut self, location: DirLocation, stack: Vec<(Vec<u8>, u32)>, path: &[u8]) -> (r: Result<
        (DirLocation, Vec<(Vec<u8>, u32)>),
        &'static str,
    >)
        requires
            old(self).wf(),
        ensures
            final(self).only_read(*old(self)),
            match walked(old(self).volume(), (Place { location, stack: stack_view(stack@) }), path@) {
                Ok(p) => r matches Ok(x) && x.0 == p.location && stack_view(x.1@) == p.stack,
                Err(e) => r == Err::<(DirLocation, Vec<(Vec<u8>, u32)>), &'static str>(e),
            },
    {
        let ghost v = self.volume();
        let ghost from = Place { location, stack: stack_view(stack@) };
        let ghost whole = walked(v, from, path@);
        let n: usize = path.len();
        let absolute = n > 0 && path[0] == 0x2F;
        let mut here = if absolute {
            DirLocation::Root
        } else {
            location
        };
        let mut trail = if absolute {
            Vec::new()
        } else {
            stack
        };
        assert(absolute ==> stack_view(trail@) =~= Seq::empty());
        let mut i: usize = 0;
        assert(path@.skip(0) =~= path@);
        while i < n
            invariant
                n == path@.len(),
                i <= n,
                self.wf(),
                v == self.volume(),
                self.only_read(*old(self)),
                stepped_all(
                    v,
                    Place { location: here, stack: stack_view(trail@) },
                    components(path@.skip(i as int)),
                ) == whole,
                whole == walked(old(self).volume(), from, path@),
                from == (Place { location, stack: stack_view(stack@) }),
            decreases n - i,
        {
            let ghost rest = path@.skip(i as int);
            assert(rest[0] == path@[i as int]);
            proof {
                lemma_until_slash(rest);
            }
            if path[i] == 0x2F {
                assert(rest.drop_first() =~= path@.skip(i + 1));
                i += 1;
            } else {
                let mut j: usize = i;
                while j < n && path[j] != 0x2F
                    invariant
                        n == path@.len(),
                        i <= j <= n,
                        forall|k: int| i <= k < j ==> path@[k] != 0x2F,
                    decreases n - j,
                {
                    j += 1;
                }
                proof {
                    let u = until_slash(rest);
                    if u < j - i {
                        assert(rest[u] == path@[i + u]);
                    }
                    if j - i < u {
                        assert(rest[j - i] == path@[j as int]);
                    }
                    assert(u == j - i);
                }
                let part = slice_subrange(path, i, j);
                assert(part@ =~= rest.take(j - i));
                assert(rest.skip(j - i) =~= path@.skip(j as int));
                let ghost parts = components(rest);
                assert(parts =~= seq![part@] + components(path@.skip(j as int)));
                assert(parts.drop_first() =~= components(path@.skip(j as int)));
                let ghost at = Place { location: here, stack: stack_view(trail@) };
                assert(parts[0] == part@);
                if part.len() == 1 && part[0] == 0x2E {
                    assert(part@ =~= seq![0x2Eu8]);
                } else if part.len() == 2 && part[0] == 0x2E && part[1] == 0x2E {
                    assert(part@ =~= seq![0x2Eu8, 0x2Eu8]);
                    let ghost was = trail@;
                    let _ = trail.pop();
                    assert(stack_view(trail@) =~= if was.len() > 0 {
                        stack_view(was).drop_last()
                    } else {
                        stack_view(was)
                    });
                    let m: usize = trail.len();
                    here = if m > 0 {
                        DirLocation::Cluster(trail[m - 1].1)
                    } else {
                        DirLocation::Root
                    };
                } else {
                    assert(part@ != seq![0x2Eu8]) by {
                        assert(seq![0x2Eu8][0] == 0x2E);
                    }
                    assert(part@ != seq![0x2Eu8, 0x2Eu8]) by {
                        assert(seq![0x2Eu8, 0x2Eu8][0] == 0x2E && seq![0x2Eu8, 0x2Eu8][1] == 0x2E);
                    }
                    match self.find_in_dir(here, part) {
                        Err(e) => {
                            return Err(e);
                        },
                        Ok(e) => {
                            if !e.is_dir {
                                return Err("not a directory");
                            }
                            let ghost was = trail@;
                            let ghost view = e@;
                            here = DirLocation::Cluster(e.cluster);
                            trail.push((e.name, e.cluster));
                            assert(stack_view(trail@) =~= stack_view(was).push((view.name, view.cluster)));
                        },
                    }
                }
                assert(stepped(v, at, part@) == Ok::<Place, &'static str>(
                    Place { location: here, stack: stack_view(trail@) },
                ));
                i = j;
            }
        }
        assert(path@.skip(n as int) =~= Seq::empty());
        Ok((here, trail))
    }

    /// The directory that a path names, from the current directory.
    fn resolve_dir(&mut self, path: &[u8]) -> (r: Result<DirLocation, &'static str>)
        requires
            old(self).wf(),
        ensures
            final(self).only_read(*old(self)),
            r == resolved(old(self).volume(), old(self).place(), path@),
    {
        let location = self.location;
        let stack = copy_stack(&self.stack);
        match self.walk_path(location, stack, path) {
            Ok((location, _)) => Ok(location),
            Err(e) => Err(e),
        }
    }
}

/// Makes the directory that a path names the current one. If there is none,
/// the current directory stays what it was.
pub fn change_dir(fs: &mut Fs, path: &[u8]) -> (r: Result<(), &'static str>)
    requires
        old(fs).wf(),
    ensures
        final(fs).wf(),
        final(fs).volume() == old(fs).volume(),
        final(fs).sectors_written == old(fs).sectors_written,
        match walked(old(fs).volume(), old(fs).place(), path@) {
            Ok(p) => r is Ok && final(fs).place() == p,
            Err(e) => r == Err::<(), &'static str>(e) && final(fs).only_read(*old(fs)),
        },
{
    let location = fs.location;
    let stack = copy_stack(&fs.stack);
    proof {
        lemma_steps_ok(fs.volume(), fs.place(), components(path@));
        lemma_steps_ok(fs.volume(), root_place(), components(path@));
    }
    match fs.walk_path(location, stack, path) {
        Ok((location, stack)) => {
            fs.location = location;
            fs.stack = stack;
            Ok(())
        },
        Err(e) => Err(e),
    }
}

/// The path of the current directory.
pub fn cwd_path_string(fs: &Fs) -> (r: Vec<u8>)
    ensures
        r@ == if fs.stack@.len() == 0 {
            seq![0x2Fu8]
        } else {
            path_text(stack_view(fs.stack@))
        },
{
    let n: usize = fs.stack.len();
    let mut out: Vec<u8> = Vec::new();
    if n == 0 {
        out.push(0x2F);
        assert(out@ =~= seq![0x2Fu8]);
        return out;
    }
    let ghost all = stack_view(fs.stack@);
    assert(all.take(0) =~= Seq::empty());
    for i in 0..n
        invariant
            n == fs.stack@.len(),
            all == stack_view(fs.stack@),
            out@ == path_text(all.take(i as int)),
    {
        assert(all.take(i + 1).drop_last() =~= all.take(i as int));
        assert(all.take(i + 1).last() == (fs.stack@[i as int].0@, fs.stack@[i as int].1));
        let ghost was = out@;
        out.push(0x2F);
        let name = &fs.stack[i].0;
        let m: usize = name.len();
        assert(name@.take(0) =~= Seq::empty());
        for j in 0..m
            invariant
                m == name@.len(),
                out@ == was + seq![0x2Fu8] + name@.take(j as int),
        {
            out.push(name[j]);
            assert(out@ =~= was + seq![0x2Fu8] + name@.take(j + 1));
        }
        assert(name@.take(m as int) =~= name@);
    }
    assert(all.take(n as int) =~= all);
    out
}

/// Whether a path names a directory, and how long what it names is; a
/// directory has length 0.
pub fn stat_path(fs: &mut Fs, path: &[u8]) -> (r: Result<(bool, u32), &'static str>)
    requires
        old(fs).wf(),
    ensures
        final(fs).only_read(*old(fs)),
        r == status(old(fs).volume(), old(fs).place(), path@),
{
    if fs.resolve_dir(path).is_ok() {
        return Ok((true, 0));
    }
    let (dir, name) = split_path(path);
    if name.len() == 0 {
        return Err("no such file or directory");
    }
    let location = match fs.resolve_dir(dir) {
        Ok(location) => location,
        Err(e) => {
            return Err(e);
        },
    };
    match fs.find_in_dir(location, name) {
        Ok(e) => Ok((e.is_dir, e.size)),
        Err(e) => Err(e),
    }
}

impl Fs {
    /// Appends the sectors of one cluster to `data`, until it has `size` bytes.
    fn read_cluster(&mut self, l: Layout, cluster: u32, size: u32, data: &mut Vec<u8>) -> (r: Result<
        (),
        &'static str,
    >)
        requires
            image_ok(old(self).disk@),
            l.wf(),
            2 <= cluster <= 0xFFFF,
            old(data)@.len() < size,
        ensures
            final(self).only_read(*old(self)),
            match read_sectors(
                old(self).disk@,
                cluster_lba(l, cluster as int),
                l.sectors_per_cluster as int,
                size as int,
                old(data)@,
            ) {
                Ok(more) => r is Ok && final(data)@ == more && more.len() <= size,
                Err(e) => r == Err::<(), &'static str>(e),
            },
    {
        let ghost d = self.disk@;
        let base: u32 = cluster_to_lba(l, cluster);
        let n: u32 = l.sectors_per_cluster;
        let ghost whole = read_sectors(d, base as int, n as int, size as int, data@);
        let mut s: u32 = 0;
        while s < n
            invariant
                s <= n <= 255,
                base <= 0x300_0000,
                image_ok(d),
                d == self.disk@,
                self.only_read(*old(self)),
                data@.len() < size,
                read_sectors(d, base + s, n - s, size as int, data@) == whole,
                whole == read_sectors(
                    old(self).disk@,
                    cluster_lba(l, cluster as int),
                    l.sectors_per_cluster as int,
                    size as int,
                    old(data)@,
                ),
            decreases n - s,
        {
            let buf: Vec<u8> = match self.read_sector(base + s) {
                Ok(b) => b,
                Err(e) => {
                    return Err(e);
                },
            };
            let remaining: u32 = size - data.len() as u32;
            let take: usize = if remaining < 512 {
                remaining as usize
            } else {
                512
            };
            let ghost was = data@;
            assert(data@ =~= was + buf@.take(0));
            for i in 0..take
                invariant
                    take <= 512,
                    buf@.len() == 512,
                    data@ == was + buf@.take(i as int),
            {
                data.push(buf[i]);
                assert(data@ =~= was + buf@.take(i + 1));
            }
            s += 1;
            if data.len() as u32 >= size {
                return Ok(());
            }
        }
        Ok(())
    }

    /// The bytes of the chain at `cluster`, up to `size` of them.
    fn read_clusters(&mut self, l: Layout, cluster: u32, size: u32) -> (r: Result<Vec<u8>, &'static str>)
        requires
            image_ok(old(self).disk@),
            l.wf(),
        ensures
            final(self).only_read(*old(self)),
            match read_chain(
                old(self).disk@,
                l,
                cluster as int,
                size as int,
                Seq::empty(),
                chain_budget(size as int),
            ) {
                Ok(data) => r matches Ok(v) && v@ == data,
                Err(e) => r == Err::<Vec<u8>, &'static str>(e),
            },
    {
        let ghost d = self.disk@;
        let mut data: Vec<u8> = Vec::new();
        let mut c: u32 = cluster;
        let mut left: u64 = size as u64 + MAX_CHAIN as u64;
        let ghost whole = read_chain(
            d,
            l,
            cluster as int,
            size as int,
            Seq::empty(),
            chain_budget(size as int),
        );
        assert(data@ =~= Seq::empty());
        while c >= 2 && c < 0xFFF8 && (data.len() as u64) < size as u64 && left > 0
            invariant
                image_ok(d),
                l.wf(),
                d == self.disk@,
                self.only_read(*old(self)),
                data@.len() <= size,
                read_chain(d, l, c as int, size as int, data@, left as nat) == whole,
                whole == read_chain(
                    old(self).disk@,
                    l,
                    cluster as int,
                    size as int,
                    Seq::empty(),
                    chain_budget(size as int),
                ),
            decreases left,
        {
            match self.read_cluster(l, c, size, &mut data) {
                Ok(_) => {},
                Err(e) => {
                    return Err(e);
                },
            }
            match self.fat_entry(l, c) {
                Ok(next) => {
                    c = next as u32;
                },
                Err(e) => {
                    return Err(e);
                },
            }
            left -= 1;
        }
        Ok(data)
    }

    /// The entry of the file that a path names.
    fn find_file(&mut self, path: &[u8]) -> (r: Result<DirEntry, &'static str>)
        requires
            old(self).wf(),
        ensures
            final(self).only_read(*old(self)),
            match file_entry(old(self).volume(), old(self).place(), path@) {
                Ok(e) => r matches Ok(x) && x@ == e,
                Err(e) => r == Err::<DirEntry, &'static str>(e),
            },
    {
        let (dir, name) = split_path(path);
        if name.len() == 0 {
            return Err("not a file");
        }
        let location = match self.resolve_dir(dir) {
            Ok(location) => location,
            Err(e) => {
                return Err(e);
            },
        };
        match self.find_in_dir(location, name) {
            Ok(e) => if e.is_dir {
                Err("is a directory")
            } else {
                Ok(e)
            },
            Err(e) => Err(e),
        }
    }
}

/// The bytes of the file that a path names.
pub fn read_file(fs: &mut Fs, path: &[u8]) -> (r: Result<Vec<u8>, &'static str>)
    requires
        old(fs).wf(),
    ensures
        final(fs).only_read(*old(fs)),
        match content(old(fs).volume(), old(fs).place(), path@) {
            Ok(data) => r matches Ok(v) && v@ == data,
            Err(e) => r == Err::<Vec<u8>, &'static str>(e),
        },
{
    let l = match fs.layout {
        Some(l) => l,
        None => {
            return Err("fat16: not initialized (init() failed or wasn't called)");
        },
    };
    match fs.find_file(path) {
        Ok(e) => fs.read_clusters(l, e.cluster, e.size),
        Err(e) => Err(e),
    }
}

/// Opens the file that a path names for reading.
pub fn open_file(fs: &mut Fs, path: &[u8]) -> (r: Result<File, &'static str>)
    requires
        old(fs).wf(),
    ensures
        final(fs).only_read(*old(fs)),
        match file_entry(old(fs).volume(), old(fs).place(), path@) {
            Ok(e) => r == Ok::<File, &'static str>(opened(e)),
            Err(e) => r == Err::<File, &'static str>(e),
        },
{
    match fs.find_file(path) {
        Ok(e) => Ok(
            File { first: e.cluster, size: e.size, cursor_cluster: e.cluster, cursor_index: 0 },
        ),
        Err(e) => Err(e),
    }
}

/// The table sector read last, so that following a chain within it reads the
/// disk once.
struct FatCache {
    lba: u32,
    sector: Vec<u8>,
}

impl FatCache {
    spec fn wf(self, d: Image) -> bool {
        self.sector@.len() == 512 && (self.lba != u32::MAX ==> sector(d, self.lba as int) == Ok::<
            Seq<u8>,
            &'static str,
        >(self.sector@))
    }
}

/// What bounds the clusters of a file on a volume.
struct FileBounds {
    l: Layout,
    max_clusters: u32,
    fat_entries: u64,
}

impl FileBounds {
    spec fn wf(self) -> bool {
        &&& self.l.wf()
        &&& self.l.sectors_per_cluster > 0
        &&& self.l.total_sectors >= self.l.data_start_lba
        &&& self.max_clusters == self.l.clusters()
        &&& self.fat_entries == self.l.fat_sectors * 512 / 2
    }

    fn valid(&self, c: u32) -> (r: bool)
        requires
            self.wf(),
        ensures
            r == valid_cluster(self.l, c as int),
    {
        c >= 2 && c < 0xFFF0 && c - 2 < self.max_clusters && (c as u64) < self.fat_entries
    }

    /// The cluster that follows `c` in a file.
    fn next(&self, fs: &mut Fs, cache: &mut FatCache, c: u32) -> (r: Result<u32, &'static str>)
        requires
            self.wf(),
            image_ok(old(fs).disk@),
            old(cache).wf(old(fs).disk@),
        ensures
            final(fs).only_read(*old(fs)),
            final(cache).wf(old(fs).disk@),
            match next_cluster(old(fs).disk@, self.l, c as int) {
                Ok(v) => r matches Ok(x) && x == v && x <= 0xFFFF,
                Err(e) => r == Err::<u32, &'static str>(e),
            },
    {
        if !self.valid(c) {
            return Err("truncated or invalid file chain");
        }
        let lba: u32 = self.l.fat_start_lba + c * 2 / 512;
        if lba != cache.lba {
            match fs.read_sector(lba) {
                Ok(b) => {
                    cache.sector = b;
                    cache.lba = lba;
                },
                Err(e) => {
                    return Err(e);
                },
            }
        }
        let at: usize = (c * 2 % 512) as usize;
        Ok(get16(cache.sector.as_slice(), at) as u32)
    }
}

impl File {
    /// Reads from byte `offset` on into `out`, as far as it and the file go,
    /// and returns how many bytes that was. The cluster that was read last is
    /// remembered, so that reading on does not follow the chain from its
    /// start.
    pub fn read_at(&mut self, fs: &mut Fs, offset: u64, out: &mut Vec<u8>) -> (r: Result<usize, &'static str>)
        requires
            old(fs).wf(),
        ensures
            final(fs).only_read(*old(fs)),
            ({
                let (f, bytes, n) = read_from(
                    old(fs).disk@,
                    old(fs).layout,
                    *old(self),
                    offset as int,
                    old(out)@,
                );
                &&& *final(self) == f
                &&& final(out)@ == bytes
                &&& match n {
                    Ok(k) => r matches Ok(x) && x == k,
                    Err(e) => r == Err::<usize, &'static str>(e),
                }
            }),
    {
        if offset >= self.size as u64 || out.len() == 0 {
            return Ok(0);
        }
        let l = match fs.layout {
            Some(l) => l,
            None => {
                return Err("fat16: not initialized (init() failed or wasn't called)");
            },
        };
        let cluster_bytes: u64 = l.sectors_per_cluster as u64 * 512;
        if cluster_bytes == 0 {
            return Err("invalid cluster size");
        }
        if l.total_sectors < l.data_start_lba {
            return Err("invalid data region");
        }
        let max_clusters: u32 = (l.total_sectors - l.data_start_lba) / l.sectors_per_cluster;
        let bounds = FileBounds { l, max_clusters, fat_entries: l.fat_sectors as u64 * 512 / 2 };
        assert(offset / cluster_bytes <= offset) by (nonlinear_arith)
            requires
                cluster_bytes >= 512,
        ;
        let target: u32 = (offset / cluster_bytes) as u32;
        if target >= max_clusters {
            return Err("invalid file chain length");
        }
        let (start, at) = if target >= self.cursor_index {
            (self.cursor_cluster, self.cursor_index)
        } else {
            (self.first, 0)
        };
        let mut cluster: u32 = start;
        let mut index: u32 = at;
        let ghost d = fs.disk@;
        let mut cache = FatCache { lba: u32::MAX, sector: zeros(512) };
        let ghost whole = read_from(d, fs.layout, *self, offset as int, out@);
        let ghost file = *self;
        let ghost bytes = out@;
        while index < target
            invariant
                at <= index <= target,
                bounds.wf(),
                bounds.l == l,
                d == fs.disk@,
                image_ok(d),
                fs.only_read(*old(fs)),
                cache.wf(d),
                *self == file,
                out@ == bytes,
                file == *old(self),
                bytes == old(out)@,
                advanced(d, l, start as int, index - at) == Ok::<int, &'static str>(cluster as int),
                whole == read_from(
                    old(fs).disk@,
                    old(fs).layout,
                    *old(self),
                    offset as int,
                    old(out)@,
                ),
                match advanced(d, l, start as int, target - at) {
                    Err(e) => whole == (file, bytes, Err::<int, &'static str>(e)),
                    Ok(_) => true,
                },
            decreases target - index,
        {
            match bounds.next(fs, &mut cache, cluster) {
                Ok(c) => {
                    cluster = c;
                },
                Err(e) => {
                    proof {
                        lemma_advanced_fails(d, l, start as int, index - at + 1, target - at);
                    }
                    return Err(e);
                },
            }
            index += 1;
        }
        let room: usize = out.len();
        let left: u64 = self.size as u64 - offset;
        let want: usize = if room as u64 <= left {
            room
        } else {
            left as usize
        };
        assert(want == min(out@.len() as int, self.size - offset));
        let mut done: usize = 0;
        let mut within: u64 = offset % cluster_bytes;
        while done < want
            invariant
                done <= want <= out@.len(),
                bounds.wf(),
                bounds.l == l,
                max_clusters == l.clusters(),
                cluster_bytes == l.sectors_per_cluster * 512,
                within < cluster_bytes || done >= want,
                within <= cluster_bytes,
                d == fs.disk@,
                image_ok(d),
                fs.only_read(*old(fs)),
                cache.wf(d),
                read_run(
                    d,
                    l,
                    *self,
                    out@,
                    cluster as int,
                    index as int,
                    within as int,
                    done as int,
                    want as int,
                ) == whole,
                whole == read_from(
                    old(fs).disk@,
                    old(fs).layout,
                    *old(self),
                    offset as int,
                    old(out)@,
                ),
            decreases want - done,
        {
            if !bounds.valid(cluster) || index >= max_clusters {
                return Err("truncated or invalid file chain");
            }
            self.cursor_cluster = cluster;
            self.cursor_index = index;
            let lba: u32 = cluster_to_lba(l, cluster) + (within / 512) as u32;
            let buf: Vec<u8> = match fs.read_sector(lba) {
                Ok(b) => b,
                Err(e) => {
                    return Err(e);
                },
            };
            let lo: usize = (within % 512) as usize;
            let take: usize = if 512 - lo <= want - done {
                512 - lo
            } else {
                want - done
            };
            let ghost was = out@;
            for i in 0..take
                invariant
                    done + take <= want <= out@.len(),
                    lo + take <= 512,
                    buf@.len() == 512,
                    out@.len() == was.len(),
                    forall|k: int|
                        0 <= k < was.len() ==> #[trigger] out@[k] == if done <= k < done + i {
                            buf@[lo + k - done]
                        } else {
                            was[k]
                        },
            {
                out[done + i] = buf[lo + i];
            }
            assert(out@ =~= splice(was, done as int, buf@.subrange(lo as int, lo + take)));
            proof {
                lemma_within(within as int, take as int, l.sectors_per_cluster as int);
            }
            done += take;
            within += take as u64;
            if within == cluster_bytes && done < want {
                match bounds.next(fs, &mut cache, cluster) {
                    Ok(c) => {
                        cluster = c;
                    },
                    Err(e) => {
                        return Err(e);
                    },
                }
                index += 1;
                within = 0;
            }
        }
        Ok(done)
    }
}

/// Reading up to the end of a sector does not pass the end of the cluster.
proof fn lemma_within(within: int, take: int, sectors: int)
    requires
        0 <= within < sectors * 512,
        0 <= take <= 512 - within % 512,
    ensures
        within + take <= sectors * 512,
{
    assert(within / 512 < sectors);
}

proof fn lemma_advanced_fails(d: Image, l: Layout, c: int, n: int, m: int)
    requires
        n <= m,
        advanced(d, l, c, n) is Err,
    ensures
        advanced(d, l, c, m) == advanced(d, l, c, n),
    decreases m - n,
{
    if n < m && m > 0 {
        lemma_advanced_fails(d, l, c, n, m - 1);
    }
}

fn zeros(n: usize) -> (r: Vec<u8>)
    ensures
        r@ == Seq::new(n as nat, |i: int| 0u8),
{
    let mut out: Vec<u8> = Vec::new();
    for i in 0..n
        invariant
            out@.len() == i,
            forall|k: int| 0 <= k < i ==> #[trigger] out@[k] == 0,
    {
        out.push(0);
    }
    assert(out@ =~= Seq::new(n as nat, |i: int| 0u8));
    out
}

/// Up to `len` bytes of the file that a path names, from `offset` on.
pub fn read_file_range(fs: &mut Fs, path: &[u8], offset: u32, len: usize) -> (r: Result<
    Vec<u8>,
    &'static str,
>)
    requires
        old(fs).wf(),
    ensures
        final(fs).only_read(*old(fs)),
        match content_range(old(fs).volume(), old(fs).place(), path@, offset as int, len as int) {
            Ok(data) => r matches Ok(v) && v@ == data,
            Err(e) => r == Err::<Vec<u8>, &'static str>(e),
        },
{
    let mut file = match open_file(fs, path) {
        Ok(f) => f,
        Err(e) => {
            return Err(e);
        },
    };
    let left: u32 = if offset < file.size {
        file.size - offset
    } else {
        0
    };
    let n: usize = if len as u64 <= left as u64 {
        len
    } else {
        left as usize
    };
    let mut out: Vec<u8> = zeros(n);
    match file.read_at(fs, offset as u64, &mut out) {
        Ok(_) => Ok(out),
        Err(e) => Err(e),
    }
}

proof fn lemma_data_lba(l: Layout, c: int)
    requires
        l.wf(),
        l.allocatable(),
        2 <= c < l.clusters() + 2,
    ensures
        0 <= (c - 2) * l.sectors_per_cluster,
        cluster_lba(l, c) + l.sectors_per_cluster <= l.total_sectors,
{
    let spc = l.sectors_per_cluster as int;
    let room = l.total_sectors - l.data_start_lba;
    assert(0 <= (c - 2) * spc && (c - 2) * spc + spc <= room) by (nonlinear_arith)
        requires
            2 <= c,
            c - 2 < room / spc,
            spc > 0,
            room >= 0,
    ;
}

/// The first sector of a cluster of the data region.
fn data_lba(l: Layout, cluster: u32) -> (r: u32)
    requires
        l.wf(),
        l.allocatable(),
        2 <= cluster < l.clusters() + 2,
    ensures
        r == cluster_lba(l, cluster as int),
        r + l.sectors_per_cluster <= u32::MAX,
{
    proof {
        lemma_data_lba(l, cluster as int);
    }
    l.data_start_lba + (cluster - 2) * l.sectors_per_cluster
}

impl Fs {
    /// Stores a cluster's entry in every copy of the table.
    fn set_fat_entry(&mut self, l: Layout, cluster: u32, value: u16) -> (r: Result<(), &'static str>)
        requires
            image_ok(old(self).disk@),
            l.wf(),
            cluster < 0x8000_0000,
        ensures
            final(self).only_disk(*old(self)),
            image_ok(final(self).disk@),
            ({
                let (d, x) = fat_set(old(self).disk@, l, cluster as int, value, l.num_fats as int);
                final(self).disk@ == d && r == x
            }),
    {
        let ghost d = self.disk@;
        let byte: u32 = cluster * 2;
        let off: usize = (byte % 512) as usize;
        let within: u32 = byte / 512;
        let copies: u32 = l.num_fats;
        let mut k: u32 = 0;
        while k < copies
            invariant
                k <= copies,
                copies == l.num_fats,
                l.wf(),
                within == cluster * 2 / 512,
                within <= 0x80_0000,
                off == cluster * 2 % 512,
                image_ok(self.disk@),
                self.only_disk(*old(self)),
                d == old(self).disk@,
                fat_set(d, l, cluster as int, value, k as int) == (self.disk@, Ok::<(), &'static str>(())),
            decreases copies - k,
        {
            proof {
                lemma_fat_bound(k as int, l.fat_sectors as int);
            }
            let lba: u32 = l.fat_start_lba + k * l.fat_sectors + within;
            let ghost step = fat_set(d, l, cluster as int, value, k + 1);
            let mut buf: Vec<u8> = match self.read_sector(lba) {
                Ok(b) => b,
                Err(e) => {
                    proof {
                        lemma_fat_set_fails(d, l, cluster as int, value, k + 1, copies as int);
                    }
                    return Err(e);
                },
            };
            buf[off] = (value % 0x100) as u8;
            buf[off + 1] = (value / 0x100) as u8;
            match self.write_sector(lba, buf) {
                Ok(_) => {},
                Err(e) => {
                    return Err(e);
                },
            }
            k += 1;
        }
        Ok(())
    }

    /// Takes the first free cluster and marks it the end of a chain.
    fn allocate_cluster(&mut self, l: Layout) -> (r: Result<u32, &'static str>)
        requires
            image_ok(old(self).disk@),
            l.wf(),
            l.allocatable(),
        ensures
            final(self).only_disk(*old(self)),
            image_ok(final(self).disk@),
            ({
                let (d, x) = allocated(old(self).disk@, l);
                final(self).disk@ == d && match x {
                    Ok(c) => r matches Ok(y) && y == c && 2 <= c < l.clusters() + 2,
                    Err(e) => r == Err::<u32, &'static str>(e),
                }
            }),
    {
        let ghost d = self.disk@;
        let total: u32 = (l.total_sectors - l.data_start_lba) / l.sectors_per_cluster;
        assert(total == l.clusters());
        let mut c: u32 = 2;
        while c < 2 + total
            invariant
                2 <= c <= 2 + total,
                total == l.clusters(),
                2 + total <= 0x8000_0000,
                l.wf(),
                image_ok(d),
                d == old(self).disk@,
                self.disk@ == d,
                self.only_disk(*old(self)),
                free_cluster_from(d, l, 2) == free_cluster_from(d, l, c as int),
            decreases 2 + total - c,
        {
            match self.fat_entry(l, c) {
                Err(e) => {
                    return Err(e);
                },
                Ok(v) => if v == 0 {
                    match self.set_fat_entry(l, c, 0xFFFF) {
                        Ok(_) => {
                            return Ok(c);
                        },
                        Err(e) => {
                            return Err(e);
                        },
                    }
                },
            }
            c += 1;
        }
        Err("disk full (no free clusters)")
    }

    /// Frees every cluster of the chain at `cluster`.
    fn free_chain(&mut self, l: Layout, cluster: u32) -> (r: Result<(), &'static str>)
        requires
            image_ok(old(self).disk@),
            l.wf(),
        ensures
            final(self).only_disk(*old(self)),
            image_ok(final(self).disk@),
            ({
                let (d, x) = freed(old(self).disk@, l, cluster as int, MAX_CHAIN as nat);
                final(self).disk@ == d && r == x
            }),
    {
        let mut c: u32 = cluster;
        let mut left: u32 = MAX_CHAIN;
        let ghost whole = freed(self.disk@, l, cluster as int, MAX_CHAIN as nat);
        while c >= 2 && c < 0xFFF8 && left > 0
            invariant
                image_ok(self.disk@),
                l.wf(),
                self.only_disk(*old(self)),
                freed(self.disk@, l, c as int, left as nat) == whole,
                whole == freed(old(self).disk@, l, cluster as int, MAX_CHAIN as nat),
            decreases left,
        {
            let next: u16 = match self.fat_entry(l, c) {
                Ok(v) => v,
                Err(e) => {
                    return Err(e);
                },
            };
            match self.set_fat_entry(l, c, 0) {
                Ok(_) => {},
                Err(e) => {
                    return Err(e);
                },
            }
            c = next as u32;
            left -= 1;
        }
        Ok(())
    }

    /// Stores `data` from `off` on in the sectors of a cluster.
    fn fill_cluster(&mut self, l: Layout, cluster: u32, data: &[u8], off: usize) -> (r: Result<
        (),
        &'static str,
    >)
        requires
            image_ok(old(self).disk@),
            l.wf(),
            l.allocatable(),
            2 <= cluster < l.clusters() + 2,
            off <= data@.len(),
        ensures
            final(self).only_disk(*old(self)),
            image_ok(final(self).disk@),
            ({
                let (d, x) = write_run(
                    old(self).disk@,
                    cluster_lba(l, cluster as int),
                    data@,
                    off as int,
                    l.sectors_per_cluster as int,
                );
                final(self).disk@ == d && r == x
            }),
    {
        let ghost d = self.disk@;
        let base: u32 = data_lba(l, cluster);
        let n: u32 = l.sectors_per_cluster;
        let total: usize = data.len();
        let mut s: u32 = 0;
        while s < n
            invariant
                s <= n <= 255,
                base + n <= u32::MAX,
                base == cluster_lba(l, cluster as int),
                n == l.sectors_per_cluster,
                total == data@.len(),
                off <= total,
                image_ok(self.disk@),
                self.only_disk(*old(self)),
                d == old(self).disk@,
                write_run(d, base as int, data@, off as int, s as int) == (self.disk@, Ok::<(), &'static str>(())),
            decreases n - s,
        {
            let skip: usize = s as usize * 512;
            let mut buf: Vec<u8> = Vec::new();
            for i in 0..512usize
                invariant
                    skip == s * 512,
                    skip <= 255 * 512,
                    total == data@.len(),
                    off <= total,
                    buf@.len() == i,
                    forall|k: int| 0 <= k < i ==> #[trigger] buf@[k] == block(data@, off + 512 * s)[k],
            {
                if skip + i < total - off {
                    buf.push(data[off + skip + i]);
                } else {
                    buf.push(0);
                }
            }
            assert(buf@ =~= block(data@, off + 512 * s));
            match self.write_sector(base + s, buf) {
                Ok(_) => {},
                Err(e) => {
                    proof {
                        lemma_write_run_fails(d, base as int, data@, off as int, s + 1, n as int);
                    }
                    return Err(e);
                },
            }
            s += 1;
        }
        Ok(())
    }

    /// Zero-fills a cluster, so that it reads as free directory entries.
    fn zero_cluster(&mut self, l: Layout, cluster: u32) -> (r: Result<(), &'static str>)
        requires
            image_ok(old(self).disk@),
            l.wf(),
            l.allocatable(),
            2 <= cluster < l.clusters() + 2,
        ensures
            final(self).only_disk(*old(self)),
            image_ok(final(self).disk@),
            ({
                let (d, x) = write_run(
                    old(self).disk@,
                    cluster_lba(l, cluster as int),
                    Seq::empty(),
                    0,
                    l.sectors_per_cluster as int,
                );
                final(self).disk@ == d && r == x
            }),
    {
        let none: Vec<u8> = Vec::new();
        assert(none@ =~= Seq::empty());
        self.fill_cluster(l, cluster, none.as_slice(), 0)
    }

    /// Stores `data` in newly allocated clusters and returns the first, 0 if
    /// there was nothing to store.
    fn store(&mut self, l: Layout, data: &[u8]) -> (r: Result<u32, &'static str>)
        requires
            image_ok(old(self).disk@),
            l.wf(),
            data@.len() > 0 ==> l.allocatable(),
        ensures
            final(self).only_disk(*old(self)),
            image_ok(final(self).disk@),
            ({
                let (d, x) = stored(old(self).disk@, l, data@, 0, None, 0);
                final(self).disk@ == d && match x {
                    Ok(c) => r matches Ok(y) && y == c,
                    Err(e) => r == Err::<u32, &'static str>(e),
                }
            }),
    {
        let n: usize = data.len();
        let cluster_bytes: usize = l.sectors_per_cluster as usize * 512;
        let mut first: u32 = 0;
        let mut prev: Option<u32> = None;
        let mut off: usize = 0;
        let ghost whole = stored(self.disk@, l, data@, 0, None, 0);
        while off < n
            invariant
                off <= n,
                n == data@.len(),
                cluster_bytes == l.sectors_per_cluster * 512,
                l.wf(),
                data@.len() > 0 ==> l.allocatable(),
                image_ok(self.disk@),
                self.only_disk(*old(self)),
                prev matches Some(p) ==> p < 0x8000_0000,
                stored(
                    self.disk@,
                    l,
                    data@,
                    off as int,
                    match prev {
                        Some(p) => Some(p as int),
                        None => None,
                    },
                    first as int,
                ) == whole,
                whole == stored(old(self).disk@, l, data@, 0, None, 0),
            decreases n - off,
        {
            let c: u32 = match self.allocate_cluster(l) {
                Ok(c) => c,
                Err(e) => {
                    return Err(e);
                },
            };
            if first == 0 {
                first = c;
            }
            if let Some(p) = prev {
                match self.set_fat_entry(l, p, (c % 0x1_0000) as u16) {
                    Ok(_) => {},
                    Err(e) => {
                        return Err(e);
                    },
                }
            }
            match self.fill_cluster(l, c, data, off) {
                Ok(_) => {},
                Err(e) => {
                    return Err(e);
                },
            }
            off = if n - off <= cluster_bytes {
                n
            } else {
                off + cluster_bytes
            };
            prev = Some(c);
        }
        Ok(first)
    }
}

proof fn lemma_fat_set_fails(d: Image, l: Layout, c: int, v: u16, n: int, m: int)
    requires
        n <= m,
        fat_set(d, l, c, v, n).1 is Err,
    ensures
        fat_set(d, l, c, v, m) == fat_set(d, l, c, v, n),
    decreases m - n,
{
    if n < m && m > 0 {
        lemma_fat_set_fails(d, l, c, v, n, m - 1);
    }
}

proof fn lemma_write_run_fails(d: Image, lba: int, data: Seq<u8>, off: int, n: int, m: int)
    requires
        n <= m,
        write_run(d, lba, data, off, n).1 is Err,
    ensures
        write_run(d, lba, data, off, m) == write_run(d, lba, data, off, n),
    decreases m - n,
{
    if n < m && m > 0 {
        lemma_write_run_fails(d, lba, data, off, n, m - 1);
    }
}

/// Where a search for a slot has got to.
enum Probe {
    On(Option<(u32, usize)>),
    Hit(u32, usize, Option<DirEntry>),
}

spec fn spare_view(spare: Option<(u32, usize)>) -> Option<(int, int)> {
    match spare {
        Some((lba, off)) => Some((lba as int, off as int)),
        None => None,
    }
}

spec fn existing_view(e: Option<DirEntry>) -> Option<Entry> {
    match e {
        Some(x) => Some(x@),
        None => None,
    }
}

impl Probe {
    spec fn view(self) -> Search {
        match self {
            Probe::On(spare) => Search::On(spare_view(spare)),
            Probe::Hit(lba, off, e) => Search::Hit(lba as int, off as int, existing_view(e)),
        }
    }
}

proof fn lemma_hit_records(x: Search, target: Seq<u8>, lba: int, s: Seq<u8>, n: int, m: int)
    requires
        n <= m,
        searched_records(x, target, lba, s, n) is Hit,
    ensures
        searched_records(x, target, lba, s, m) == searched_records(x, target, lba, s, n),
    decreases m - n,
{
    if n < m && m > 0 {
        lemma_hit_records(x, target, lba, s, n, m - 1);
    }
}

proof fn lemma_hit_sectors(d: Image, x: Search, target: Seq<u8>, lba: int, n: int, m: int)
    requires
        n <= m,
        !(searched_sectors(d, x, target, lba, n) is On),
    ensures
        searched_sectors(d, x, target, lba, m) == searched_sectors(d, x, target, lba, n),
    decreases m - n,
{
    if n < m && m > 0 {
        lemma_hit_sectors(d, x, target, lba, n, m - 1);
    }
}

/// Whether the first eleven bytes of a record are `target`.
fn has_name(chunk: &[u8], target: &[u8]) -> (r: bool)
    requires
        chunk@.len() == 32,
        target@.len() == 11,
    ensures
        r == (chunk@.subrange(0, 11) == target@),
{
    for i in 0..11usize
        invariant
            chunk@.len() == 32,
            target@.len() == 11,
            forall|k: int| 0 <= k < i ==> chunk@[k] == #[trigger] target@[k],
    {
        if chunk[i] != target[i] {
            assert(chunk@.subrange(0, 11)[i as int] == chunk@[i as int]);
            return false;
        }
    }
    assert(chunk@.subrange(0, 11) =~= target@);
    true
}

/// Searches the records of one sector.
fn probe_records(spare: Option<(u32, usize)>, target: &[u8], lba: u32, buf: &Vec<u8>) -> (r: Probe)
    requires
        buf@.len() == 512,
        target@.len() == 11,
    ensures
        r@ == searched_records(Search::On(spare_view(spare)), target@, lba as int, buf@, 16),
{
    let ghost x = Search::On(spare_view(spare));
    let mut free: Option<(u32, usize)> = spare;
    for k in 0..16usize
        invariant
            buf@.len() == 512,
            target@.len() == 11,
            x == Search::On(spare_view(spare)),
            searched_records(x, target@, lba as int, buf@, k as int) == Search::On(spare_view(free)),
    {
        let off: usize = 32 * k;
        let chunk = slice_subrange(buf.as_slice(), off, off + 32);
        assert(chunk@ =~= record(buf@, k as int));
        assert(chunk.len() == 32);
        let first: u8 = chunk[0];
        if first == ENTRY_FREE {
            let (a, b) = match free {
                Some((a, b)) => (a, b),
                None => (lba, off),
            };
            let r = Probe::Hit(a, b, None);
            assert(r@ == searched_records(x, target@, lba as int, buf@, k + 1));
            proof {
                lemma_hit_records(x, target@, lba as int, buf@, k + 1, 16);
            }
            return r;
        }
        if first == ENTRY_DELETED {
            if free.is_none() {
                free = Some((lba, off));
            }
        } else if first == ENTRY_DOT || is_skippable_attr(chunk[11]) {
        } else if has_name(chunk, target) {
            let r = Probe::Hit(lba, off, Some(decode_entry(chunk)));
            assert(r@ == searched_records(x, target@, lba as int, buf@, k + 1));
            proof {
                lemma_hit_records(x, target@, lba as int, buf@, k + 1, 16);
            }
            return r;
        }
    }
    Probe::On(free)
}

impl Fs {
    /// Searches `n` sectors from `lba` on.
    fn probe_sectors(&mut self, spare: Option<(u32, usize)>, target: &[u8], lba: u32, n: u32) -> (r: Result<
        Probe,
        &'static str,
    >)
        requires
            image_ok(old(self).disk@),
            target@.len() == 11,
            lba + n <= u32::MAX,
        ensures
            final(self).only_read(*old(self)),
            match searched_sectors(
                old(self).disk@,
                Search::On(spare_view(spare)),
                target@,
                lba as int,
                n as int,
            ) {
                Search::Failed(x) => r matches Err(e) && e == x,
                x => r matches Ok(p) && p@ == x,
            },
    {
        let ghost d = self.disk@;
        let ghost x = Search::On(spare_view(spare));
        let mut free: Option<(u32, usize)> = spare;
        let mut i: u32 = 0;
        while i < n
            invariant
                i <= n,
                lba + n <= u32::MAX,
                target@.len() == 11,
                image_ok(d),
                d == self.disk@,
                d == old(self).disk@,
                self.only_read(*old(self)),
                x == Search::On(spare_view(spare)),
                searched_sectors(d, x, target@, lba as int, i as int) == Search::On(spare_view(free)),
            decreases n - i,
        {
            let buf: Vec<u8> = match self.read_sector(lba + i) {
                Ok(b) => b,
                Err(e) => {
                    proof {
                        lemma_hit_sectors(d, x, target@, lba as int, i + 1, n as int);
                    }
                    return Err(e);
                },
            };
            match probe_records(free, target, lba + i, &buf) {
                Probe::On(f) => {
                    free = f;
                },
                Probe::Hit(a, b, e) => {
                    let r = Probe::Hit(a, b, e);
                    assert(r@ == searched_sectors(d, x, target@, lba as int, i + 1));
                    proof {
                        lemma_hit_sectors(d, x, target@, lba as int, i + 1, n as int);
                    }
                    return Ok(r);
                },
            }
            i += 1;
        }
        Ok(Probe::On(free))
    }

    /// Searches the clusters of a directory, and returns the last one too.
    fn probe_chain(&mut self, l: Layout, target: &[u8], cluster: u32) -> (r: Result<
        (Probe, u32),
        &'static str,
    >)
        requires
            image_ok(old(self).disk@),
            l.wf(),
            target@.len() == 11,
            2 <= cluster <= 0xFFFF,
        ensures
            final(self).only_read(*old(self)),
            match searched_chain(
                old(self).disk@,
                l,
                Search::On(None),
                target@,
                cluster as int,
                MAX_CHAIN as nat,
            ) {
                (Search::Failed(x), _) => r matches Err(e) && e == x,
                (x, last) => r matches Ok(p) && p.0@ == x && p.1 == last && p.1 <= 0xFFFF,
            },
    {
        let ghost d = self.disk@;
        let ghost whole = searched_chain(
            d,
            l,
            Search::On(None),
            target@,
            cluster as int,
            MAX_CHAIN as nat,
        );
        let mut free: Option<(u32, usize)> = None;
        let mut c: u32 = cluster;
        let mut left: u32 = MAX_CHAIN;
        loop
            invariant
                image_ok(d),
                l.wf(),
                target@.len() == 11,
                2 <= c <= 0xFFFF,
                d == self.disk@,
                d == old(self).disk@,
                self.only_read(*old(self)),
                searched_chain(d, l, Search::On(spare_view(free)), target@, c as int, left as nat) == whole,
                whole == searched_chain(
                    d,
                    l,
                    Search::On(None),
                    target@,
                    cluster as int,
                    MAX_CHAIN as nat,
                ),
            decreases left,
        {
            let base: u32 = cluster_to_lba(l, c);
            match self.probe_sectors(free, target, base, l.sectors_per_cluster) {
                Err(e) => {
                    return Err(e);
                },
                Ok(Probe::Hit(a, b, e)) => {
                    return Ok((Probe::Hit(a, b, e), c));
                },
                Ok(Probe::On(f)) => {
                    free = f;
                },
            }
            match self.fat_entry(l, c) {
                Err(e) => {
                    return Err(e);
                },
                Ok(next) => {
                    if next >= 2 && next < 0xFFF8 && left > 0 {
                        c = next as u32;
                        left -= 1;
                    } else {
                        return Ok((Probe::On(free), c));
                    }
                },
            }
        }
    }

    /// Finds where the entry with the short name `target` lives in a
    /// directory, or should be written, as sector, offset in the sector, and
    /// the entry that is there if it has that very name.
    fn locate_slot(&mut self, l: Layout, location: DirLocation, target: &[u8]) -> (r: Result<
        (u32, usize, Option<DirEntry>),
        &'static str,
    >)
        requires
            image_ok(old(self).disk@),
            l.wf(),
            target@.len() == 11,
            location matches DirLocation::Cluster(c) ==> 2 <= c <= 0xFFFF && (full(
                old(self).disk@,
                l,
                c as int,
                target@,
            ) ==> l.allocatable()),
        ensures
            final(self).only_disk(*old(self)),
            image_ok(final(self).disk@),
            ({
                let (d, x) = slot_for(old(self).disk@, l, location, target@);
                final(self).disk@ == d && match x {
                    Ok((lba, off, e)) => r matches Ok(y) && y.0 == lba && y.1 == off && existing_view(y.2)
                        == e,
                    Err(e) => r matches Err(y) && y == e,
                }
            }),
    {
        proof {
            lemma_layout(l);
        }
        match location {
            DirLocation::Root => {
                match self.probe_sectors(None, target, l.root_dir_start_lba, l.root_dir_sectors) {
                    Err(e) => Err(e),
                    Ok(Probe::Hit(lba, off, e)) => Ok((lba, off, e)),
                    Ok(Probe::On(Some((lba, off)))) => Ok((lba, off, None)),
                    Ok(Probe::On(None)) => Err("root directory is full"),
                }
            },
            DirLocation::Cluster(c) => {
                let last: u32 = match self.probe_chain(l, target, c) {
                    Err(e) => {
                        return Err(e);
                    },
                    Ok((Probe::Hit(lba, off, e), _)) => {
                        return Ok((lba, off, e));
                    },
                    Ok((Probe::On(Some((lba, off))), _)) => {
                        return Ok((lba, off, None));
                    },
                    Ok((Probe::On(None), last)) => last,
                };
                let new: u32 = match self.allocate_cluster(l) {
                    Ok(c) => c,
                    Err(e) => {
                        return Err(e);
                    },
                };
                match self.set_fat_entry(l, last, (new % 0x1_0000) as u16) {
                    Ok(_) => {},
                    Err(e) => {
                        return Err(e);
                    },
                }
                match self.zero_cluster(l, new) {
                    Ok(_) => {},
                    Err(e) => {
                        return Err(e);
                    },
                }
                Ok((data_lba(l, new), 0, None))
            },
        }
    }

    /// Stores a record at offset `off` of sector `lba`.
    fn store_record(&mut self, lba: u32, off: usize, rec: &[u8]) -> (r: Result<(), &'static str>)
        requires
            image_ok(old(self).disk@),
            off + rec@.len() <= 512,
        ensures
            final(self).only_disk(*old(self)),
            image_ok(final(self).disk@),
            (final(self).disk@, r) == record_stored(old(self).disk@, lba as int, off as int, rec@),
    {
        let mut buf: Vec<u8> = match self.read_sector(lba) {
            Ok(b) => b,
            Err(e) => {
                return Err(e);
            },
        };
        let n: usize = rec.len();
        let ghost s = buf@;
        for i in 0..n
            invariant
                n == rec@.len(),
                off + n <= 512,
                s.len() == 512,
                buf@.len() == 512,
                forall|k: int|
                    0 <= k < 512 ==> #[trigger] buf@[k] == if off <= k < off + i {
                        rec@[k - off]
                    } else {
                        s[k]
                    },
        {
            buf[off + i] = rec[i];
        }
        assert(buf@ =~= splice(s, off as int, rec@));
        self.write_sector(lba, buf)
    }
}

/// A slot's offset leaves room for a record.
proof fn lemma_record_fits(x: Search, target: Seq<u8>, lba: int, s: Seq<u8>, n: int)
    requires
        0 <= n <= 16,
        slot_fits(x),
    ensures
        slot_fits(searched_records(x, target, lba, s, n)),
    decreases n,
{
    if n > 0 {
        lemma_record_fits(x, target, lba, s, n - 1);
    }
}

spec fn slot_fits(x: Search) -> bool {
    match x {
        Search::On(Some((_, off))) => 0 <= off && off + 32 <= 512,
        Search::Hit(_, off, _) => 0 <= off && off + 32 <= 512,
        _ => true,
    }
}

proof fn lemma_sectors_fit(d: Image, x: Search, target: Seq<u8>, lba: int, n: int)
    requires
        slot_fits(x),
    ensures
        slot_fits(searched_sectors(d, x, target, lba, n)),
    decreases n,
{
    if n > 0 {
        lemma_sectors_fit(d, x, target, lba, n - 1);
        let y = searched_sectors(d, x, target, lba, n - 1);
        if y is On {
            if let Ok(s) = sector(d, lba + n - 1) {
                lemma_record_fits(y, target, lba + n - 1, s, 16);
            }
        }
    }
}

proof fn lemma_chain_fits(d: Image, l: Layout, x: Search, target: Seq<u8>, c: int, left: nat)
    requires
        slot_fits(x),
    ensures
        slot_fits(searched_chain(d, l, x, target, c, left).0),
    decreases left,
{
    lemma_sectors_fit(d, x, target, cluster_lba(l, c), l.sectors_per_cluster as int);
    let y = searched_sectors(d, x, target, cluster_lba(l, c), l.sectors_per_cluster as int);
    if y is On {
        if let Some(next) = fat_get(d, l, c) {
            if in_chain(next as int) && left > 0 {
                lemma_chain_fits(d, l, y, target, next as int, (left - 1) as nat);
            }
        }
    }
}

proof fn lemma_slot_fits(d: Image, l: Layout, location: DirLocation, target: Seq<u8>)
    ensures
        slot_for(d, l, location, target).1 matches Ok((_, off, _)) ==> 0 <= off && off + 32 <= 512,
{
    match location {
        DirLocation::Root => {
            lemma_sectors_fit(
                d,
                Search::On(None),
                target,
                l.root_dir_start_lba as int,
                l.root_dir_sectors as int,
            );
        },
        DirLocation::Cluster(c) => {
            lemma_chain_fits(d, l, Search::On(None), target, c as int, MAX_CHAIN as nat);
        },
    }
}

/// Creates the file that a path names with `data` as its contents, or
/// replaces the contents of one that is there.
pub fn write_file(fs: &mut Fs, path: &[u8], data: &[u8]) -> (r: Result<(), &'static str>)
    requires
        old(fs).wf(),
        writable(old(fs).volume(), old(fs).place(), path@, data@),
    ensures
        final(fs).wf(),
        final(fs).only_disk(*old(fs)),
        (final(fs).disk@, r) == saved(old(fs).volume(), old(fs).place(), path@, data@),
{
    let l = match fs.layout {
        Some(l) => l,
        None => {
            return Err("fat16: not initialized (init() failed or wasn't called)");
        },
    };
    let (dir, name) = split_path(path);
    if name.len() == 0 {
        return Err("not a file");
    }
    let location = match fs.resolve_dir(dir) {
        Ok(location) => location,
        Err(e) => {
            return Err(e);
        },
    };
    let target: Vec<u8> = to_short_name(name);
    proof {
        lemma_slot_fits(fs.disk@, l, location, target@);
    }
    let (lba, off, existing) = match fs.locate_slot(l, location, target.as_slice()) {
        Ok(x) => x,
        Err(e) => {
            return Err(e);
        },
    };
    if let Some(e) = &existing {
        if e.is_dir {
            return Err("is a directory");
        }
        if e.cluster >= 2 {
            match fs.free_chain(l, e.cluster) {
                Ok(_) => {},
                Err(e) => {
                    return Err(e);
                },
            }
        }
    }
    let first: u32 = match fs.store(l, data) {
        Ok(c) => c,
        Err(e) => {
            return Err(e);
        },
    };
    let mut rec: Vec<u8> = slice_to_vec(target.as_slice());
    for i in 0..15usize
        invariant
            rec@ == target@ + Seq::new(i as nat, |k: int| 0u8),
    {
        rec.push(0);
        assert(rec@ =~= target@ + Seq::new((i + 1) as nat, |k: int| 0u8));
    }
    put16(&mut rec, (first % 0x1_0000) as u16);
    put32(&mut rec, (data.len() as u64 % 0x1_0000_0000) as u32);
    assert(rec@ =~= file_record(target@, first as int, data@.len() as int));
    fs.store_record(lba, off, rec.as_slice())
}

/// Removes the file that a path names.
pub fn remove_file(fs: &mut Fs, path: &[u8]) -> (r: Result<(), &'static str>)
    requires
        old(fs).wf(),
        writable(old(fs).volume(), old(fs).place(), path@, Seq::empty()),
    ensures
        final(fs).wf(),
        final(fs).only_disk(*old(fs)),
        (final(fs).disk@, r) == removed(old(fs).volume(), old(fs).place(), path@),
{
    let l = match fs.layout {
        Some(l) => l,
        None => {
            return Err("fat16: not initialized (init() failed or wasn't called)");
        },
    };
    let (dir, name) = split_path(path);
    if name.len() == 0 {
        return Err("not a file");
    }
    let location = match fs.resolve_dir(dir) {
        Ok(location) => location,
        Err(e) => {
            return Err(e);
        },
    };
    let target: Vec<u8> = to_short_name(name);
    proof {
        lemma_slot_fits(fs.disk@, l, location, target@);
    }
    let (lba, off, existing) = match fs.locate_slot(l, location, target.as_slice()) {
        Ok(x) => x,
        Err(e) => {
            return Err(e);
        },
    };
    match existing {
        None => Err("no such file"),
        Some(e) => {
            if e.is_dir {
                return Err("is a directory (rmdir not supported)");
            }
            if e.cluster >= 2 {
                match fs.free_chain(l, e.cluster) {
                    Ok(_) => {},
                    Err(e) => {
                        return Err(e);
                    },
                }
            }
            let mut mark: Vec<u8> = Vec::new();
            mark.push(ENTRY_DELETED);
            assert(mark@ =~= seq![ENTRY_DELETED]);
            fs.store_record(lba, off, mark.as_slice())
        },
    }
}

fn can_allocate(l: Layout) -> (r: bool)
    requires
        l.wf(),
    ensures
        r == l.allocatable(),
{
    l.sectors_per_cluster > 0 && l.total_sectors >= l.data_start_lba && (l.total_sectors - l.data_start_lba)
        / l.sectors_per_cluster <= 0x8000_0000 - 2
}

fn copy_disk(disk: &Disk) -> (r: Disk)
    ensures
        r@ == disk@,
{
    let n: usize = disk.sectors.len();
    let mut sectors: Vec<Result<Vec<u8>, &'static str>> = Vec::new();
    for i in 0..n
        invariant
            n == disk.sectors@.len(),
            sectors@.len() == i,
            forall|k: int| 0 <= k < i ==> sector_view(#[trigger] sectors@[k]) == sector_view(disk.sectors@[k]),
    {
        sectors.push(
            match &disk.sectors[i] {
                Ok(v) => Ok(slice_to_vec(v.as_slice())),
                Err(e) => Err(*e),
            },
        );
    }
    let r = Disk { sectors };
    assert(r@ =~= disk@);
    r
}

/// Whether every cluster of the chain at `cluster` can be freed. Nothing is
/// freed on this disk.
fn can_free(disk: &Disk, l: Layout, cluster: u32) -> (r: bool)
    requires
        image_ok(disk@),
        l.wf(),
    ensures
        r == (freed(disk@, l, cluster as int, MAX_CHAIN as nat).1 is Ok),
{
    let mut trial = Fs::new(copy_disk(disk));
    trial.free_chain(l, cluster).is_ok()
}

/// Whether a slot takes the data of a file: no directory is there, and the
/// clusters of a file that is there can be freed.
fn slot_takes_data(disk: &Disk, l: Layout, existing: &Option<DirEntry>) -> (r: bool)
    requires
        image_ok(disk@),
        l.wf(),
    ensures
        r == match existing_view(*existing) {
            None => true,
            Some(e) => !e.is_dir && (e.cluster >= 2 ==> freed(disk@, l, e.cluster as int, MAX_CHAIN as nat).1 is Ok),
        },
{
    match existing {
        None => true,
        Some(e) => !e.is_dir && (e.cluster < 2 || can_free(disk, l, e.cluster)),
    }
}

/// Whether `data` can be kept in a file at a path, or with no data a file be
/// removed there.
pub fn can_write(fs: &mut Fs, path: &[u8], data: &[u8]) -> (r: bool)
    requires
        old(fs).wf(),
    ensures
        final(fs).only_read(*old(fs)),
        r == writable(old(fs).volume(), old(fs).place(), path@, data@),
{
    let l = match fs.layout {
        Some(l) => l,
        None => {
            return true;
        },
    };
    let (dir, name) = split_path(path);
    if name.len() == 0 {
        return true;
    }
    let location = match fs.resolve_dir(dir) {
        Ok(location) => location,
        Err(_) => {
            return true;
        },
    };
    let target: Vec<u8> = to_short_name(name);
    let allocates: bool = can_allocate(l);
    proof {
        lemma_layout(l);
    }
    match location {
        DirLocation::Root => {
            if allocates || data.len() == 0 {
                return true;
            }
            match fs.probe_sectors(None, target.as_slice(), l.root_dir_start_lba, l.root_dir_sectors) {
                Err(_) => true,
                Ok(Probe::Hit(_, _, e)) => !slot_takes_data(&fs.disk, l, &e),
                Ok(Probe::On(Some(_))) => false,
                Ok(Probe::On(None)) => true,
            }
        },
        DirLocation::Cluster(c) => {
            if c < 2 || c > 0xFFFF {
                return false;
            }
            if allocates {
                return true;
            }
            match fs.probe_chain(l, target.as_slice(), c) {
                Err(_) => true,
                Ok((Probe::Hit(_, _, e), _)) => data.len() == 0 || !slot_takes_data(&fs.disk, l, &e),
                Ok((Probe::On(Some(_)), _)) => data.len() == 0,
                Ok((Probe::On(None), _)) => false,
            }
        },
    }
}

/// How many sectors have been read.
pub fn sectors_read(fs: &Fs) -> (r: u64)
    ensures
        r == fs.sectors_read,
{
    fs.sectors_read
}

/// How many sectors have been written.
pub fn sectors_written(fs: &Fs) -> (r: u64)
    ensures
        r == fs.sectors_written,
{
    fs.sectors_written
}

} // verus!
