//! What a FAT16 volume holds, as a function of its sectors: the mathematical
//! model that the driver in `fat16` is stated over.
use crate::le::{bytes16, bytes32, le16, le32};
use vstd::prelude::*;

verus! {

pub const SECTOR_SIZE: usize = 512;

pub const ATTR_VOLUME_ID: u8 = 0x08;

pub const ATTR_DIRECTORY: u8 = 0x10;

pub const ATTR_LFN: u8 = 0x0F;

pub const ENTRY_FREE: u8 = 0x00;

pub const ENTRY_DELETED: u8 = 0xE5;

/// The first byte of the `.` and `..` entries.
pub const ENTRY_DOT: u8 = 0x2E;

/// How many clusters a chain is followed for. A FAT16 volume cannot name
/// more, so a chain that is longer runs into itself.
pub const MAX_CHAIN: u32 = 0x1_0000;

/// The sectors of a disk; `None` for one that the drive cannot read or write.
pub type Image = Seq<Result<Seq<u8>, &'static str>>;

/// Where things lie on a volume, all in sectors.
#[derive(Clone, Copy, PartialEq, Eq, Structural, Debug)]
pub struct Layout {
    pub bytes_per_sector: u32,
    pub sectors_per_cluster: u32,
    pub fat_start_lba: u32,
    pub fat_sectors: u32,
    pub num_fats: u32,
    pub root_dir_start_lba: u32,
    pub root_dir_sectors: u32,
    pub root_entry_count: u32,
    pub data_start_lba: u32,
    pub total_sectors: u32,
}

/// A directory: the fixed root directory, or one that starts at a cluster.
#[derive(Clone, Copy, PartialEq, Eq, Structural, Debug)]
pub enum DirLocation {
    Root,
    Cluster(u32),
}

/// One file or directory, as its directory entry describes it.
pub ghost struct Entry {
    pub name: Seq<u8>,
    pub is_dir: bool,
    pub size: u32,
    pub cluster: u32,
}

/// What the drive answers for a sector past its end.
pub const NO_SECTOR: &'static str = "ATA error (ERR set -- the drive rejected the command, e.g. the requested sector is past the end of the disk image)";

/// A volume: the disk, and where things lie on it once it is mounted.
pub ghost struct Volume {
    pub image: Image,
    pub layout: Option<Layout>,
}

/// A directory with the names and clusters of the directories that lead to it.
pub ghost struct Place {
    pub location: DirLocation,
    pub stack: Seq<(Seq<u8>, u32)>,
}

/// The sector at `lba`, or what the drive answers if it cannot read it.
pub open spec fn sector(d: Image, lba: int) -> Result<Seq<u8>, &'static str> {
    if 0 <= lba < d.len() {
        d[lba]
    } else {
        Err(NO_SECTOR)
    }
}

/// What the drive answers instead of the sector at `lba`.
pub open spec fn refusal(d: Image, lba: int) -> &'static str {
    sector(d, lba)->Err_0
}

/// Every readable sector has the size of a sector.
pub open spec fn image_ok(d: Image) -> bool {
    forall|i: int| 0 <= i < d.len() ==> (#[trigger] d[i] matches Ok(s) ==> s.len() == 512)
}

/// The layout that a boot sector describes.
pub open spec fn parse_boot(boot: Seq<u8>) -> Result<Layout, &'static str> {
    let fat_sectors = le16(boot, 22) as u32;
    let num_fats = boot[16] as u32;
    let root_start = (le16(boot, 14) + num_fats * fat_sectors) as u32;
    let root_sectors = ((le16(boot, 17) * 32 + 511) / 512) as u32;
    if boot[510] != 0x55 || boot[511] != 0xAA {
        Err("fat16: missing boot sector signature (no filesystem on disk?)")
    } else if le16(boot, 11) != 512 {
        Err("fat16: only 512-byte sectors are supported")
    } else if fat_sectors == 0 {
        Err("fat16: FAT32 volume (or malformed BPB) -- not supported")
    } else {
        Ok(
            Layout {
                bytes_per_sector: 512,
                sectors_per_cluster: boot[13] as u32,
                fat_start_lba: le16(boot, 14) as u32,
                fat_sectors,
                num_fats,
                root_dir_start_lba: root_start,
                root_dir_sectors: root_sectors,
                root_entry_count: le16(boot, 17) as u32,
                data_start_lba: (root_start + root_sectors) as u32,
                total_sectors: if le16(boot, 19) != 0 {
                    le16(boot, 19) as u32
                } else {
                    le32(boot, 32)
                },
            },
        )
    }
}

impl Layout {
    /// What holds of every layout that a boot sector can describe.
    pub open spec fn wf(self) -> bool {
        &&& self.bytes_per_sector == 512
        &&& self.sectors_per_cluster <= 255
        &&& self.fat_start_lba <= 0xFFFF
        &&& 0 < self.fat_sectors <= 0xFFFF
        &&& self.num_fats <= 255
        &&& self.root_dir_start_lba == self.fat_start_lba + self.num_fats * self.fat_sectors
        &&& self.root_entry_count <= 0xFFFF
        &&& self.root_dir_sectors == (self.root_entry_count * 32 + 511) / 512
        &&& self.data_start_lba == self.root_dir_start_lba + self.root_dir_sectors
    }

    /// The bounds that keep sector numbers in range.
    pub open spec fn small(self) -> bool {
        &&& self.root_dir_start_lba <= 0x100_0000
        &&& self.root_dir_sectors <= 4096
        &&& self.data_start_lba <= 0x100_1000
    }

    /// How many clusters the data region has.
    pub open spec fn clusters(self) -> int {
        (self.total_sectors - self.data_start_lba) / (self.sectors_per_cluster as int)
    }

    /// Whether clusters can be allocated: there is a data region, clusters
    /// have a size, and the table offset of every cluster is a 32-bit number.
    pub open spec fn allocatable(self) -> bool {
        &&& self.sectors_per_cluster > 0
        &&& self.total_sectors >= self.data_start_lba
        &&& self.clusters() + 2 <= 0x8000_0000
    }
}

/// Whether a cluster number continues a chain.
pub open spec fn in_chain(c: int) -> bool {
    2 <= c < 0xFFF8
}

/// The first sector of a cluster.
pub open spec fn cluster_lba(l: Layout, c: int) -> int {
    l.data_start_lba + (c - 2) * l.sectors_per_cluster
}

/// The sector of the first table that holds the entry of a cluster.
pub open spec fn fat_lba(l: Layout, c: int) -> int {
    l.fat_start_lba + c * 2 / 512
}

/// The table entry of a cluster.
pub open spec fn fat_get(d: Image, l: Layout, c: int) -> Option<u16> {
    match sector(d, fat_lba(l, c)) {
        Ok(s) => Some(le16(s, c * 2 % 512)),
        Err(_) => None,
    }
}

/// The cluster that follows `c`; an unreadable table ends the chain.
pub open spec fn next_or_end(d: Image, l: Layout, c: int) -> int {
    match fat_get(d, l, c) {
        Some(v) => v as int,
        None => 0xFFFF,
    }
}

/// How many sectors of each cluster of a directory are read.
pub open spec fn dir_sectors_per_cluster(l: Layout) -> int {
    if l.sectors_per_cluster == 0 {
        1
    } else {
        l.sectors_per_cluster as int
    }
}

/// `n` consecutive sector numbers.
pub open spec fn run(lba: int, n: int) -> Seq<int> {
    Seq::new(n as nat, |i: int| lba + i)
}

/// The sectors of the directory whose chain starts at `c`.
pub open spec fn chain_sectors(d: Image, l: Layout, c: int, left: nat) -> Seq<int>
    decreases left,
{
    if !in_chain(c) || left == 0 {
        Seq::empty()
    } else {
        run(cluster_lba(l, c), dir_sectors_per_cluster(l)) + chain_sectors(
            d,
            l,
            next_or_end(d, l, c),
            (left - 1) as nat,
        )
    }
}

/// The sectors of a directory, in order.
pub open spec fn dir_sectors(d: Image, l: Layout, location: DirLocation) -> Seq<int> {
    match location {
        DirLocation::Root => run(l.root_dir_start_lba as int, l.root_dir_sectors as int),
        DirLocation::Cluster(c) => chain_sectors(d, l, c as int, MAX_CHAIN as nat),
    }
}

// ---- Names ----

/// The text encoding of one character below 0x10000.
pub open spec fn utf8(c: u16) -> Seq<u8> {
    if c < 0x80 {
        seq![c as u8]
    } else if c < 0x800 {
        seq![(0xC0 + c / 64) as u8, (0x80 + c % 64) as u8]
    } else {
        seq![(0xE0 + c / 4096) as u8, (0x80 + c / 64 % 64) as u8, (0x80 + c % 64) as u8]
    }
}

/// The text of a run of bytes, each one character.
pub open spec fn latin(s: Seq<u8>) -> Seq<u8>
    decreases s.len(),
{
    if s.len() == 0 {
        Seq::empty()
    } else {
        latin(s.drop_last()) + utf8(s.last() as u16)
    }
}

/// `s` without the spaces at its end.
pub open spec fn trimmed(s: Seq<u8>) -> Seq<u8>
    decreases s.len(),
{
    if s.len() > 0 && s.last() == 0x20 {
        trimmed(s.drop_last())
    } else {
        s
    }
}

/// The name that eleven bytes of a directory entry spell.
pub open spec fn short_text(raw: Seq<u8>) -> Seq<u8> {
    let name = latin(trimmed(raw.subrange(0, 8)));
    let ext = trimmed(raw.subrange(8, 11));
    if ext.len() > 0 {
        name + seq![0x2Eu8] + latin(ext)
    } else {
        name
    }
}

/// Where the `n`th of the thirteen characters of a long-name entry lies.
pub open spec fn lfn_offset(n: int) -> int {
    if n < 5 {
        1 + 2 * n
    } else if n < 11 {
        14 + 2 * (n - 5)
    } else {
        28 + 2 * (n - 11)
    }
}

/// The thirteen characters of a long-name entry.
pub open spec fn lfn_chars(chunk: Seq<u8>) -> Seq<u16> {
    Seq::new(13, |n: int| le16(chunk, lfn_offset(n)))
}

/// The characters of those of the first `n` parts that have number `k`.
pub open spec fn chars_numbered(parts: Seq<(u8, Seq<u16>)>, k: int, n: int) -> Seq<u16>
    decreases n,
{
    if n <= 0 {
        Seq::empty()
    } else if parts[n - 1].0 == k {
        chars_numbered(parts, k, n - 1) + parts[n - 1].1
    } else {
        chars_numbered(parts, k, n - 1)
    }
}

/// The characters of all parts with a number below `k`, in the order of their
/// numbers, parts of one number in the order they came.
pub open spec fn chars_ordered(parts: Seq<(u8, Seq<u16>)>, k: int) -> Seq<u16>
    decreases k,
{
    if k <= 0 {
        Seq::empty()
    } else {
        chars_ordered(parts, k - 1) + chars_numbered(parts, k - 1, parts.len() as int)
    }
}

/// The text of `chars` up to the first zero; half a surrogate pair, which is
/// no character, is shown as a question mark.
pub open spec fn text_until_nul(chars: Seq<u16>) -> Seq<u8>
    decreases chars.len(),
{
    if chars.len() == 0 || chars[0] == 0 {
        Seq::empty()
    } else {
        utf8(
            if 0xD800 <= chars[0] <= 0xDFFF {
                0x3F
            } else {
                chars[0]
            },
        ) + text_until_nul(chars.drop_first())
    }
}

/// The long name that the parts of a long name spell.
pub open spec fn long_text(parts: Seq<(u8, Seq<u16>)>) -> Seq<u8> {
    text_until_nul(chars_ordered(parts, 32))
}

pub open spec fn upper(b: u8) -> u8 {
    if 0x61 <= b <= 0x7A {
        (b - 0x20) as u8
    } else {
        b
    }
}

/// Whether two names are equal but for the case of ASCII letters.
pub open spec fn same_name(a: Seq<u8>, b: Seq<u8>) -> bool {
    a.len() == b.len() && forall|i: int| 0 <= i < a.len() ==> upper(#[trigger] a[i]) == upper(b[i])
}

/// The last position of `b` in `s`.
pub open spec fn last_index(s: Seq<u8>, b: u8) -> Option<int>
    decreases s.len(),
{
    if s.len() == 0 {
        None
    } else if s.last() == b {
        Some(s.len() - 1)
    } else {
        last_index(s.drop_last(), b)
    }
}

/// The eleven bytes under which a name is stored: what precedes its last dot,
/// cut to eight bytes, and what follows, cut to three, in upper case and
/// filled up with spaces.
pub open spec fn short_name(name: Seq<u8>) -> Seq<u8> {
    let (base, ext) = match last_index(name, 0x2E) {
        Some(i) => (name.take(i), name.skip(i + 1)),
        None => (name, Seq::empty()),
    };
    Seq::new(
        11,
        |i: int|
            if i < 8 && i < base.len() {
                upper(base[i])
            } else if 8 <= i && i - 8 < ext.len() {
                upper(ext[i - 8])
            } else {
                0x20u8
            },
    )
}

// ---- Directories ----

/// The entry that a 32-byte directory record describes, by its short name.
pub open spec fn entry_of(chunk: Seq<u8>) -> Entry {
    Entry {
        name: short_text(chunk.subrange(0, 11)),
        is_dir: chunk[11] & ATTR_DIRECTORY != 0,
        size: le32(chunk, 28),
        cluster: le16(chunk, 26) as u32,
    }
}

pub open spec fn record(s: Seq<u8>, k: int) -> Seq<u8> {
    s.subrange(32 * k, 32 * k + 32)
}

/// A directory listing under way: the parts of a long name met since the last
/// entry, the entries so far, and whether the end has been met.
pub ghost struct Listing {
    pub parts: Seq<(u8, Seq<u16>)>,
    pub entries: Seq<Entry>,
    pub done: bool,
}

/// A listing after one more record.
pub open spec fn listed_record(x: Listing, chunk: Seq<u8>) -> Listing {
    if x.done {
        x
    } else if chunk[0] == ENTRY_FREE {
        Listing { done: true, ..x }
    } else if chunk[0] == ENTRY_DELETED {
        Listing { parts: Seq::empty(), ..x }
    } else if chunk[11] == ATTR_LFN {
        Listing { parts: x.parts.push((chunk[0] & 0x1F, lfn_chars(chunk))), ..x }
    } else if chunk[0] == ENTRY_DOT || chunk[11] & ATTR_VOLUME_ID != 0 {
        Listing { parts: Seq::empty(), ..x }
    } else {
        let e = entry_of(chunk);
        let named = if x.parts.len() > 0 {
            Entry { name: long_text(x.parts), ..e }
        } else {
            e
        };
        Listing { parts: Seq::empty(), entries: x.entries.push(named), done: false }
    }
}

/// A listing after the first `n` records of a sector.
pub open spec fn listed_records(x: Listing, s: Seq<u8>, n: int) -> Listing
    decreases n,
{
    if n <= 0 {
        x
    } else {
        listed_record(listed_records(x, s, n - 1), record(s, n - 1))
    }
}

/// A listing continued over further sectors, up to the end mark.
pub open spec fn listed_sectors(d: Image, x: Listing, sectors: Seq<int>) -> Result<Seq<Entry>, &'static str>
    decreases sectors.len(),
{
    if x.done || sectors.len() == 0 {
        Ok(x.entries)
    } else {
        match sector(d, sectors[0]) {
            Err(e) => Err(e),
            Ok(s) => listed_sectors(d, listed_records(x, s, 16), sectors.drop_first()),
        }
    }
}

pub open spec fn fresh_listing() -> Listing {
    Listing { parts: Seq::empty(), entries: Seq::empty(), done: false }
}

/// The entries of a directory.
pub open spec fn listing(v: Volume, location: DirLocation) -> Result<Seq<Entry>, &'static str> {
    match v.layout {
        None => Err("fat16: not initialized (init() failed or wasn't called)"),
        Some(l) => listed_sectors(v.image, fresh_listing(), dir_sectors(v.image, l, location)),
    }
}

/// The first entry with the given name, the case of ASCII letters aside.
pub open spec fn first_named(entries: Seq<Entry>, name: Seq<u8>) -> Option<Entry>
    decreases entries.len(),
{
    if entries.len() == 0 {
        None
    } else if same_name(entries[0].name, name) {
        Some(entries[0])
    } else {
        first_named(entries.drop_first(), name)
    }
}

/// Looks a name up in a directory.
pub open spec fn found(v: Volume, location: DirLocation, name: Seq<u8>) -> Result<Entry, &'static str> {
    match listing(v, location) {
        Err(e) => Err(e),
        Ok(entries) => match first_named(entries, name) {
            Some(e) => Ok(e),
            None => Err("no such file or directory"),
        },
    }
}

// ---- Paths ----

/// How many bytes of a path precede its first slash.
pub open spec fn until_slash(path: Seq<u8>) -> int
    decreases path.len(),
{
    if path.len() == 0 || path[0] == 0x2F {
        0
    } else {
        1 + until_slash(path.drop_first())
    }
}

pub proof fn lemma_until_slash(path: Seq<u8>)
    ensures
        0 <= until_slash(path) <= path.len(),
        forall|i: int| 0 <= i < until_slash(path) ==> path[i] != 0x2F,
        until_slash(path) < path.len() ==> path[until_slash(path)] == 0x2F,
    decreases path.len(),
{
    if path.len() > 0 && path[0] != 0x2F {
        let rest = path.drop_first();
        lemma_until_slash(rest);
        assert forall|i: int| 0 <= i < until_slash(path) implies path[i] != 0x2F by {
            if i > 0 {
                assert(path[i] == rest[i - 1]);
            }
        }
    }
}

/// The parts of a path between its slashes, empty ones left out.
pub open spec fn components(path: Seq<u8>) -> Seq<Seq<u8>>
    decreases path.len(),
    via components_decreases
{
    if path.len() == 0 {
        Seq::empty()
    } else if path[0] == 0x2F {
        components(path.drop_first())
    } else {
        seq![path.take(until_slash(path))] + components(path.skip(until_slash(path)))
    }
}

#[via_fn]
proof fn components_decreases(path: Seq<u8>) {
    lemma_until_slash(path);
}

/// The directory that the last of some directories is, or the root.
pub open spec fn top_of(stack: Seq<(Seq<u8>, u32)>) -> DirLocation {
    if stack.len() > 0 {
        DirLocation::Cluster(stack.last().1)
    } else {
        DirLocation::Root
    }
}

/// The place that a single path component leads to.
pub open spec fn stepped(v: Volume, at: Place, part: Seq<u8>) -> Result<Place, &'static str> {
    if part == seq![0x2Eu8] {
        Ok(at)
    } else if part == seq![0x2Eu8, 0x2Eu8] {
        let stack = if at.stack.len() > 0 {
            at.stack.drop_last()
        } else {
            at.stack
        };
        Ok(Place { location: top_of(stack), stack })
    } else {
        match found(v, at.location, part) {
            Err(e) => Err(e),
            Ok(e) => if e.is_dir {
                Ok(
                    Place {
                        location: DirLocation::Cluster(e.cluster),
                        stack: at.stack.push((e.name, e.cluster)),
                    },
                )
            } else {
                Err("not a directory")
            },
        }
    }
}

/// The place that the components of a path lead to, one after the other.
pub open spec fn stepped_all(v: Volume, at: Place, parts: Seq<Seq<u8>>) -> Result<Place, &'static str>
    decreases parts.len(),
{
    if parts.len() == 0 {
        Ok(at)
    } else {
        match stepped(v, at, parts[0]) {
            Err(e) => Err(e),
            Ok(p) => stepped_all(v, p, parts.drop_first()),
        }
    }
}

/// A place's directory is the last of those that lead to it.
pub open spec fn place_ok(at: Place) -> bool {
    at.location == top_of(at.stack)
}

pub proof fn lemma_steps_ok(v: Volume, at: Place, parts: Seq<Seq<u8>>)
    requires
        place_ok(at),
    ensures
        stepped_all(v, at, parts) matches Ok(p) ==> place_ok(p),
    decreases parts.len(),
{
    if parts.len() > 0 {
        if let Ok(p) = stepped(v, at, parts[0]) {
            lemma_steps_ok(v, p, parts.drop_first());
        }
    }
}

pub open spec fn root_place() -> Place {
    Place { location: DirLocation::Root, stack: Seq::empty() }
}

/// The directory that a path names: from the root if it starts with a slash,
/// else from `at`.
pub open spec fn walked(v: Volume, at: Place, path: Seq<u8>) -> Result<Place, &'static str> {
    stepped_all(
        v,
        if path.len() > 0 && path[0] == 0x2F {
            root_place()
        } else {
            at
        },
        components(path),
    )
}

pub open spec fn resolved(v: Volume, at: Place, path: Seq<u8>) -> Result<DirLocation, &'static str> {
    match walked(v, at, path) {
        Ok(p) => Ok(p.location),
        Err(e) => Err(e),
    }
}

/// A path's directory and the name in it.
pub open spec fn parent_and_name(path: Seq<u8>) -> (Seq<u8>, Seq<u8>) {
    match last_index(path, 0x2F) {
        None => (Seq::empty(), path),
        Some(i) => (
            if i == 0 {
                seq![0x2Fu8]
            } else {
                path.take(i)
            },
            path.skip(i + 1),
        ),
    }
}

/// The path of a place, from the root.
pub open spec fn path_text(stack: Seq<(Seq<u8>, u32)>) -> Seq<u8>
    decreases stack.len(),
{
    if stack.len() == 0 {
        Seq::empty()
    } else {
        path_text(stack.drop_last()) + seq![0x2Fu8] + stack.last().0
    }
}

/// What kind of thing a path names, and how long it is.
pub open spec fn status(v: Volume, at: Place, path: Seq<u8>) -> Result<(bool, u32), &'static str> {
    let (dir, name) = parent_and_name(path);
    if resolved(v, at, path) is Ok {
        Ok((true, 0u32))
    } else if name.len() == 0 {
        Err("no such file or directory")
    } else {
        match resolved(v, at, dir) {
            Err(e) => Err(e),
            Ok(location) => match found(v, location, name) {
                Err(e) => Err(e),
                Ok(e) => Ok((e.is_dir, e.size)),
            },
        }
    }
}

/// The entry of the file that a path names.
pub open spec fn file_entry(v: Volume, at: Place, path: Seq<u8>) -> Result<Entry, &'static str> {
    let (dir, name) = parent_and_name(path);
    if name.len() == 0 {
        Err("not a file")
    } else {
        match resolved(v, at, dir) {
            Err(e) => Err(e),
            Ok(location) => match found(v, location, name) {
                Err(e) => Err(e),
                Ok(e) => if e.is_dir {
                    Err("is a directory")
                } else {
                    Ok(e)
                },
            },
        }
    }
}

// ---- Reading files ----

pub open spec fn min(a: int, b: int) -> int {
    if a <= b {
        a
    } else {
        b
    }
}

/// Appends up to `n` sectors from `lba` on to `data`, until it has `size`
/// bytes.
pub open spec fn read_sectors(d: Image, lba: int, n: int, size: int, data: Seq<u8>) -> Result<Seq<u8>, &'static str>
    decreases n,
{
    if n <= 0 {
        Ok(data)
    } else {
        match sector(d, lba) {
            Err(e) => Err(e),
            Ok(s) => {
                let more = data + s.take(min(size - data.len(), 512));
                if more.len() >= size {
                    Ok(more)
                } else {
                    read_sectors(d, lba + 1, n - 1, size, more)
                }
            },
        }
    }
}

/// Appends the clusters of the chain at `c` to `data`, until it has `size`
/// bytes or the chain ends.
pub open spec fn read_chain(
    d: Image,
    l: Layout,
    c: int,
    size: int,
    data: Seq<u8>,
    left: nat,
) -> Result<Seq<u8>, &'static str>
    decreases left,
{
    if !in_chain(c) || data.len() >= size || left == 0 {
        Ok(data)
    } else {
        match read_sectors(d, cluster_lba(l, c), l.sectors_per_cluster as int, size, data) {
            Err(e) => Err(e),
            Ok(more) => match fat_get(d, l, c) {
                None => Err(refusal(d, fat_lba(l, c))),
                Some(next) => read_chain(d, l, next as int, size, more, (left - 1) as nat),
            },
        }
    }
}

/// How many clusters a file of `size` bytes is followed for. Clusters that
/// have a size bring it to its end sooner.
pub open spec fn chain_budget(size: int) -> nat {
    (size + MAX_CHAIN) as nat
}

/// The bytes of the file whose entry is `e`.
pub open spec fn entry_content(d: Image, l: Layout, e: Entry) -> Result<Seq<u8>, &'static str> {
    read_chain(d, l, e.cluster as int, e.size as int, Seq::empty(), chain_budget(e.size as int))
}

/// The bytes of the file that a path names.
pub open spec fn content(v: Volume, at: Place, path: Seq<u8>) -> Result<Seq<u8>, &'static str> {
    match v.layout {
        None => Err("fat16: not initialized (init() failed or wasn't called)"),
        Some(l) => match file_entry(v, at, path) {
            Err(e) => Err(e),
            Ok(e) => entry_content(v.image, l, e),
        },
    }
}

/// An open file: where its chain starts, how long it is, and the cluster that
/// was last read with its position in the chain.
#[derive(Clone, Copy, PartialEq, Eq, Structural, Debug)]
pub struct File {
    pub first: u32,
    pub size: u32,
    pub cursor_cluster: u32,
    pub cursor_index: u32,
}

/// The open file for a directory entry.
pub open spec fn opened(e: Entry) -> File {
    File { first: e.cluster, size: e.size, cursor_cluster: e.cluster, cursor_index: 0 }
}

/// Whether a cluster can belong to a file on the volume.
pub open spec fn valid_cluster(l: Layout, c: int) -> bool {
    2 <= c < 0xFFF0 && c - 2 < l.clusters() && c < l.fat_sectors * 512 / 2
}

/// The cluster that follows `c` in a file.
pub open spec fn next_cluster(d: Image, l: Layout, c: int) -> Result<int, &'static str> {
    if !valid_cluster(l, c) {
        Err("truncated or invalid file chain")
    } else {
        match fat_get(d, l, c) {
            None => Err(refusal(d, fat_lba(l, c))),
            Some(v) => Ok(v as int),
        }
    }
}

/// The cluster `n` places after `c` in a file.
pub open spec fn advanced(d: Image, l: Layout, c: int, n: int) -> Result<int, &'static str>
    decreases n,
{
    if n <= 0 {
        Ok(c)
    } else {
        match advanced(d, l, c, n - 1) {
            Err(e) => Err(e),
            Ok(x) => next_cluster(d, l, x),
        }
    }
}

pub open spec fn splice(out: Seq<u8>, at: int, part: Seq<u8>) -> Seq<u8> {
    Seq::new(
        out.len(),
        |i: int|
            if at <= i < at + part.len() {
                part[i - at]
            } else {
                out[i]
            },
    )
}

/// Reads on from byte `within` of cluster `c`, the file's cluster number
/// `index`, into `out` from `done` up to `want`.
pub open spec fn read_run(
    d: Image,
    l: Layout,
    f: File,
    out: Seq<u8>,
    c: int,
    index: int,
    within: int,
    done: int,
    want: int,
) -> (File, Seq<u8>, Result<int, &'static str>)
    decreases want - done,
{
    if done >= want {
        (f, out, Ok(done))
    } else if !valid_cluster(l, c) || index >= l.clusters() {
        (f, out, Err("truncated or invalid file chain"))
    } else {
        let f1 = File { cursor_cluster: c as u32, cursor_index: index as u32, ..f };
        match sector(d, cluster_lba(l, c) + within / 512) {
            Err(e) => (f1, out, Err(e)),
            Ok(s) => {
                let lo = within % 512;
                let n = min(512 - lo, want - done);
                let out1 = splice(out, done, s.subrange(lo, lo + n));
                if within + n == l.sectors_per_cluster * 512 && done + n < want {
                    match next_cluster(d, l, c) {
                        Err(e) => (f1, out1, Err(e)),
                        Ok(next) => read_run(d, l, f1, out1, next, index + 1, 0, done + n, want),
                    }
                } else {
                    read_run(d, l, f1, out1, c, index, within + n, done + n, want)
                }
            },
        }
    }
}

/// Reads an open file from `offset` on into `out`.
pub open spec fn read_from(
    d: Image,
    layout: Option<Layout>,
    f: File,
    offset: int,
    out: Seq<u8>,
) -> (File, Seq<u8>, Result<int, &'static str>) {
    if offset >= f.size || out.len() == 0 {
        (f, out, Ok(0int))
    } else {
        match layout {
            None => (f, out, Err("fat16: not initialized (init() failed or wasn't called)")),
            Some(l) => {
                let per_cluster = l.sectors_per_cluster * 512;
                let target = offset / per_cluster;
                if l.sectors_per_cluster == 0 {
                    (f, out, Err("invalid cluster size"))
                } else if l.total_sectors < l.data_start_lba {
                    (f, out, Err("invalid data region"))
                } else if target >= l.clusters() {
                    (f, out, Err("invalid file chain length"))
                } else {
                    let (c, i) = if target >= f.cursor_index {
                        (f.cursor_cluster as int, f.cursor_index as int)
                    } else {
                        (f.first as int, 0)
                    };
                    match advanced(d, l, c, target - i) {
                        Err(e) => (f, out, Err(e)),
                        Ok(x) => read_run(
                            d,
                            l,
                            f,
                            out,
                            x,
                            target,
                            offset % per_cluster,
                            0,
                            min(out.len() as int, f.size - offset),
                        ),
                    }
                }
            },
        }
    }
}

/// `len` bytes of the file that a path names, from `offset` on; fewer where
/// the file ends sooner.
pub open spec fn content_range(v: Volume, at: Place, path: Seq<u8>, offset: int, len: int) -> Result<
    Seq<u8>,
    &'static str,
> {
    match file_entry(v, at, path) {
        Err(e) => Err(e),
        Ok(e) => {
            let n = if offset < e.size {
                min(len, e.size - offset)
            } else {
                0
            };
            let r = read_from(v.image, v.layout, opened(e), offset, Seq::new(n as nat, |i: int| 0u8));
            match r.2 {
                Ok(_) => Ok(r.1),
                Err(e) => Err(e),
            }
        },
    }
}

// ---- Writing files ----

/// A sector with a 16-bit integer stored at `i`.
pub open spec fn with16(s: Seq<u8>, i: int, v: u16) -> Seq<u8> {
    s.update(i, bytes16(v)[0]).update(i + 1, bytes16(v)[1])
}

/// Stores a cluster's entry in the first `k` copies of the table, as far as
/// they can be reached.
pub open spec fn fat_set(d: Image, l: Layout, c: int, v: u16, k: int) -> (Image, Result<(), &'static str>)
    decreases k,
{
    if k <= 0 {
        (d, Ok(()))
    } else {
        let (d1, r) = fat_set(d, l, c, v, k - 1);
        let lba = l.fat_start_lba + (k - 1) * l.fat_sectors + c * 2 / 512;
        match (r, sector(d1, lba)) {
            (Err(e), _) => (d1, Err(e)),
            (_, Err(e)) => (d1, Err(e)),
            (_, Ok(s)) => (d1.update(lba, Ok(with16(s, c * 2 % 512, v))), Ok(())),
        }
    }
}

/// The first free cluster at or after `c`.
pub open spec fn free_cluster_from(d: Image, l: Layout, c: int) -> Result<int, &'static str>
    decreases l.clusters() + 2 - c,
{
    if c >= l.clusters() + 2 {
        Err("disk full (no free clusters)")
    } else {
        match fat_get(d, l, c) {
            None => Err(refusal(d, fat_lba(l, c))),
            Some(v) => if v == 0 {
                Ok(c)
            } else {
                free_cluster_from(d, l, c + 1)
            },
        }
    }
}

/// Takes the first free cluster and marks it the end of a chain.
pub open spec fn allocated(d: Image, l: Layout) -> (Image, Result<int, &'static str>) {
    match free_cluster_from(d, l, 2) {
        Err(e) => (d, Err(e)),
        Ok(c) => {
            let (d1, r) = fat_set(d, l, c, 0xFFFF, l.num_fats as int);
            (
                d1,
                match r {
                    Ok(_) => Ok(c),
                    Err(e) => Err(e),
                },
            )
        },
    }
}

/// Frees every cluster of the chain at `c`.
pub open spec fn freed(d: Image, l: Layout, c: int, left: nat) -> (Image, Result<(), &'static str>)
    decreases left,
{
    if !in_chain(c) || left == 0 {
        (d, Ok(()))
    } else {
        match fat_get(d, l, c) {
            None => (d, Err(refusal(d, fat_lba(l, c)))),
            Some(next) => match fat_set(d, l, c, 0, l.num_fats as int) {
                (d1, Err(e)) => (d1, Err(e)),
                (d1, Ok(_)) => freed(d1, l, next as int, (left - 1) as nat),
            },
        }
    }
}

/// 512 bytes of `data` from `off` on, filled up with zeros.
pub open spec fn block(data: Seq<u8>, off: int) -> Seq<u8> {
    Seq::new(
        512,
        |i: int|
            if off + i < data.len() {
                data[off + i]
            } else {
                0u8
            },
    )
}

/// Stores `data` from `off` on in `n` sectors from `lba` on.
pub open spec fn write_run(d: Image, lba: int, data: Seq<u8>, off: int, n: int) -> (Image, Result<(), &'static str>)
    decreases n,
{
    if n <= 0 {
        (d, Ok(()))
    } else {
        let (d1, r) = write_run(d, lba, data, off, n - 1);
        match (r, sector(d1, lba + n - 1)) {
            (Err(e), _) => (d1, Err(e)),
            (_, Err(e)) => (d1, Err(e)),
            (_, Ok(_)) => (d1.update(lba + n - 1, Ok(block(data, off + 512 * (n - 1)))), Ok(())),
        }
    }
}

/// Stores `data` from `off` on in newly allocated clusters, the first of them
/// linked from `prev`. `first` is the first cluster so far, 0 if there is
/// none, and the result the first in the end.
pub open spec fn stored(d: Image, l: Layout, data: Seq<u8>, off: int, prev: Option<int>, first: int) -> (
    Image,
    Result<int, &'static str>,
)
    decreases data.len() - off,
{
    if off >= data.len() || l.sectors_per_cluster == 0 {
        (d, Ok(first))
    } else {
        match allocated(d, l) {
            (d1, Err(e)) => (d1, Err(e)),
            (d1, Ok(c)) => {
                let (d2, linked) = match prev {
                    Some(p) => fat_set(d1, l, p, (c % 0x1_0000) as u16, l.num_fats as int),
                    None => (d1, Ok(())),
                };
                let (d3, r) = write_run(d2, cluster_lba(l, c), data, off, l.sectors_per_cluster as int);
                match (linked, r) {
                    (Err(e), _) => (d2, Err(e)),
                    (_, Err(e)) => (d3, Err(e)),
                    _ => stored(
                        d3,
                        l,
                        data,
                        min(off + l.sectors_per_cluster * 512, data.len() as int),
                        Some(c),
                        if first == 0 {
                            c
                        } else {
                            first
                        },
                    ),
                }
            },
        }
    }
}

/// Where a search for a slot has got to: the first deleted slot met, the slot
/// to use (with the entry that is there now), or what the drive answered for
/// an unreadable sector.
pub ghost enum Search {
    On(Option<(int, int)>),
    Hit(int, int, Option<Entry>),
    Failed(&'static str),
}

/// A search after one more record, at offset `off` of sector `lba`.
pub open spec fn searched_record(x: Search, target: Seq<u8>, lba: int, off: int, chunk: Seq<u8>) -> Search {
    match x {
        Search::On(spare) => if chunk[0] == ENTRY_FREE {
            match spare {
                Some((a, b)) => Search::Hit(a, b, None),
                None => Search::Hit(lba, off, None),
            }
        } else if chunk[0] == ENTRY_DELETED {
            Search::On(
                if spare is Some {
                    spare
                } else {
                    Some((lba, off))
                },
            )
        } else if chunk[0] == ENTRY_DOT || chunk[11] & ATTR_VOLUME_ID != 0 {
            x
        } else if chunk.subrange(0, 11) == target {
            Search::Hit(lba, off, Some(entry_of(chunk)))
        } else {
            x
        },
        _ => x,
    }
}

pub open spec fn searched_records(x: Search, target: Seq<u8>, lba: int, s: Seq<u8>, n: int) -> Search
    decreases n,
{
    if n <= 0 {
        x
    } else {
        searched_record(searched_records(x, target, lba, s, n - 1), target, lba, 32 * (n - 1), record(s, n - 1))
    }
}

/// A search continued over `n` sectors from `lba` on.
pub open spec fn searched_sectors(d: Image, x: Search, target: Seq<u8>, lba: int, n: int) -> Search
    decreases n,
{
    if n <= 0 {
        x
    } else {
        match searched_sectors(d, x, target, lba, n - 1) {
            Search::On(spare) => match sector(d, lba + n - 1) {
                Err(e) => Search::Failed(e),
                Ok(s) => searched_records(Search::On(spare), target, lba + n - 1, s, 16),
            },
            other => other,
        }
    }
}

/// A search continued over the clusters of a chain, with the last of them.
pub open spec fn searched_chain(d: Image, l: Layout, x: Search, target: Seq<u8>, c: int, left: nat) -> (
    Search,
    int,
)
    decreases left,
{
    match searched_sectors(d, x, target, cluster_lba(l, c), l.sectors_per_cluster as int) {
        Search::On(spare) => match fat_get(d, l, c) {
            None => (Search::Failed(refusal(d, fat_lba(l, c))), c),
            Some(next) => if in_chain(next as int) && left > 0 {
                searched_chain(d, l, Search::On(spare), target, next as int, (left - 1) as nat)
            } else {
                (Search::On(spare), c)
            },
        },
        other => (other, c),
    }
}

/// Adds a cluster of free entries to the directory whose last cluster is `last`.
pub open spec fn extended(d: Image, l: Layout, last: int) -> (Image, Result<int, &'static str>) {
    match allocated(d, l) {
        (d1, Err(e)) => (d1, Err(e)),
        (d1, Ok(c)) => {
            let (d2, linked) = fat_set(d1, l, last, (c % 0x1_0000) as u16, l.num_fats as int);
            let (d3, r) = write_run(d2, cluster_lba(l, c), Seq::empty(), 0, l.sectors_per_cluster as int);
            match (linked, r) {
                (Err(e), _) => (d2, Err(e)),
                (_, Err(e)) => (d3, Err(e)),
                _ => (d3, Ok(c)),
            }
        },
    }
}

/// Where the entry with the short name `target` lives in a directory, or
/// should be written: at an exact match, else at the first deleted entry or
/// the end mark, else in a cluster that a subdirectory is extended with.
pub open spec fn slot_for(d: Image, l: Layout, location: DirLocation, target: Seq<u8>) -> (
    Image,
    Result<(int, int, Option<Entry>), &'static str>,
) {
    match location {
        DirLocation::Root => match searched_sectors(
            d,
            Search::On(None),
            target,
            l.root_dir_start_lba as int,
            l.root_dir_sectors as int,
        ) {
            Search::Hit(lba, off, e) => (d, Ok((lba, off, e))),
            Search::On(Some((lba, off))) => (d, Ok((lba, off, None))),
            Search::On(None) => (d, Err("root directory is full")),
            Search::Failed(e) => (d, Err(e)),
        },
        DirLocation::Cluster(c) => match searched_chain(
            d,
            l,
            Search::On(None),
            target,
            c as int,
            MAX_CHAIN as nat,
        ) {
            (Search::Hit(lba, off, e), _) => (d, Ok((lba, off, e))),
            (Search::On(Some((lba, off))), _) => (d, Ok((lba, off, None))),
            (Search::On(None), last) => match extended(d, l, last) {
                (d1, Err(e)) => (d1, Err(e)),
                (d1, Ok(c)) => (d1, Ok((cluster_lba(l, c), 0int, None))),
            },
            (Search::Failed(e), _) => (d, Err(e)),
        },
    }
}

/// The directory record of a plain file.
pub open spec fn file_record(target: Seq<u8>, first: int, len: int) -> Seq<u8> {
    target + Seq::new(15, |i: int| 0u8) + bytes16((first % 0x1_0000) as u16) + bytes32(
        (len % 0x1_0000_0000) as u32,
    )
}

/// Stores a record at offset `off` of sector `lba`.
pub open spec fn record_stored(d: Image, lba: int, off: int, rec: Seq<u8>) -> (Image, Result<(), &'static str>) {
    match sector(d, lba) {
        Err(e) => (d, Err(e)),
        Ok(s) => (d.update(lba, Ok(splice(s, off, rec))), Ok(())),
    }
}

/// Writes `data` as the file with the short name `target`, at its slot.
pub open spec fn saved_at(
    d: Image,
    l: Layout,
    lba: int,
    off: int,
    existing: Option<Entry>,
    target: Seq<u8>,
    data: Seq<u8>,
) -> (Image, Result<(), &'static str>) {
    let (d1, r) = match existing {
        Some(e) => if e.cluster >= 2 {
            freed(d, l, e.cluster as int, MAX_CHAIN as nat)
        } else {
            (d, Ok(()))
        },
        None => (d, Ok(())),
    };
    if existing matches Some(e) && e.is_dir {
        (d, Err("is a directory"))
    } else if let Err(e) = r {
        (d1, Err(e))
    } else {
        match stored(d1, l, data, 0, None, 0) {
            (d2, Err(e)) => (d2, Err(e)),
            (d2, Ok(first)) => record_stored(d2, lba, off, file_record(target, first, data.len() as int)),
        }
    }
}

/// Writes `data` as the file that a path names.
pub open spec fn saved(v: Volume, at: Place, path: Seq<u8>, data: Seq<u8>) -> (Image, Result<(), &'static str>) {
    let (dir, name) = parent_and_name(path);
    match v.layout {
        None => (v.image, Err("fat16: not initialized (init() failed or wasn't called)")),
        Some(l) => if name.len() == 0 {
            (v.image, Err("not a file"))
        } else {
            match resolved(v, at, dir) {
                Err(e) => (v.image, Err(e)),
                Ok(location) => match slot_for(v.image, l, location, short_name(name)) {
                    (d, Err(e)) => (d, Err(e)),
                    (d, Ok((lba, off, existing))) => saved_at(
                        d,
                        l,
                        lba,
                        off,
                        existing,
                        short_name(name),
                        data,
                    ),
                },
            }
        },
    }
}

/// Removes the file whose entry is at a slot.
pub open spec fn removed_at(d: Image, l: Layout, lba: int, off: int, existing: Option<Entry>) -> (
    Image,
    Result<(), &'static str>,
) {
    match existing {
        None => (d, Err("no such file")),
        Some(e) => {
            let (d1, r) = if e.cluster >= 2 {
                freed(d, l, e.cluster as int, MAX_CHAIN as nat)
            } else {
                (d, Ok(()))
            };
            if e.is_dir {
                (d, Err("is a directory (rmdir not supported)"))
            } else {
                match r {
                    Err(e) => (d1, Err(e)),
                    Ok(_) => record_stored(d1, lba, off, seq![ENTRY_DELETED]),
                }
            }
        },
    }
}

/// Removes the file that a path names.
pub open spec fn removed(v: Volume, at: Place, path: Seq<u8>) -> (Image, Result<(), &'static str>) {
    let (dir, name) = parent_and_name(path);
    match v.layout {
        None => (v.image, Err("fat16: not initialized (init() failed or wasn't called)")),
        Some(l) => if name.len() == 0 {
            (v.image, Err("not a file"))
        } else {
            match resolved(v, at, dir) {
                Err(e) => (v.image, Err(e)),
                Ok(location) => match slot_for(v.image, l, location, short_name(name)) {
                    (d, Err(e)) => (d, Err(e)),
                    (d, Ok((lba, off, existing))) => removed_at(d, l, lba, off, existing),
                },
            }
        },
    }
}

/// Whether the directory that starts at `c` has no slot for a name, so that it
/// is extended.
pub open spec fn full(d: Image, l: Layout, c: int, target: Seq<u8>) -> bool {
    searched_chain(d, l, Search::On(None), target, c, MAX_CHAIN as nat).0 == Search::On(None)
}

/// Whether writing a file gets as far as its data: there is a slot for it, no
/// directory is there, and the clusters of a file that is there can be freed.
pub open spec fn takes_data(d: Image, l: Layout, location: DirLocation, target: Seq<u8>) -> bool {
    match slot_for(d, l, location, target) {
        (_, Err(_)) => false,
        (_, Ok((_, _, None))) => true,
        (d1, Ok((_, _, Some(e)))) => !e.is_dir && (e.cluster >= 2 ==> freed(
            d1,
            l,
            e.cluster as int,
            MAX_CHAIN as nat,
        ).1 is Ok),
    }
}

/// Whether `data` can be kept in a file at a path, or with no data a file be
/// removed there: the path's directory, if there is one that is not the root,
/// starts at a cluster of the data region, and clusters can be allocated
/// where any are.
pub open spec fn writable(v: Volume, at: Place, path: Seq<u8>, data: Seq<u8>) -> bool {
    let (dir, name) = parent_and_name(path);
    let target = short_name(name);
    match (v.layout, resolved(v, at, dir)) {
        (Some(l), Ok(location)) if name.len() > 0 => {
            &&& location matches DirLocation::Cluster(c) ==> 2 <= c <= 0xFFFF && (full(
                v.image,
                l,
                c as int,
                target,
            ) ==> l.allocatable())
            &&& data.len() > 0 && takes_data(v.image, l, location, target) ==> l.allocatable()
        },
        _ => true,
    }
}

} // verus!
