//! What the bytes of a FAT16 volume mean, counted from the start of the disk,
//! and that the driver finds things where they are.
use crate::fat16_dirs::{lemma_components, lemma_single, lemma_steps_append};
use crate::fat16_laws::{file_byte, lemma_read_chain_bytes, nth_cluster};
use crate::volume::{
    chain_budget, cluster_lba, components, entry_content, fat_get, found, image_ok, parse_boot, sector, stepped,
    walked, DirLocation, Entry, Image, Layout, Place, Volume,
};
use vstd::prelude::*;

verus! {

/// Byte `pos` of the disk.
pub open spec fn disk_byte(d: Image, pos: int) -> u8 {
    (sector(d, pos / 512)->Ok_0)[pos % 512]
}

/// The 16-bit number at byte `pos` of the disk, low byte first.
pub open spec fn disk_half(d: Image, pos: int) -> int {
    disk_byte(d, pos) + 0x100 * disk_byte(d, pos + 1)
}

/// What a boot sector says: the sectors of a cluster at byte 13, the sectors
/// before the first table at 14, the number of tables at 16, the entries of
/// the root directory at 17, all sectors at 19 or, if that is zero, at 32,
/// and the sectors of one table at 22. The root directory comes behind the
/// tables, in whole sectors of sixteen entries each, and the data behind it.
pub proof fn law_boot_sector(boot: Seq<u8>)
    requires
        boot.len() == 512,
        parse_boot(boot) is Ok,
    ensures
        ({
            let l = parse_boot(boot)->Ok_0;
            let reserved = boot[14] + 0x100 * boot[15];
            let tables = boot[16] as int;
            let entries = boot[17] + 0x100 * boot[18];
            let table = boot[22] + 0x100 * boot[23];
            &&& boot[510] == 0x55 && boot[511] == 0xAA
            &&& boot[11] == 0 && boot[12] == 2
            &&& table != 0
            &&& l.sectors_per_cluster == boot[13]
            &&& l.fat_start_lba == reserved
            &&& l.num_fats == tables
            &&& l.fat_sectors == table
            &&& l.root_entry_count == entries
            &&& l.root_dir_start_lba == reserved + tables * table
            &&& entries <= 16 * l.root_dir_sectors < entries + 16
            &&& l.data_start_lba == l.root_dir_start_lba + l.root_dir_sectors
            &&& l.total_sectors == if boot[19] == 0 && boot[20] == 0 {
                boot[32] + 0x100 * boot[33] + 0x1_0000 * boot[34] + 0x100_0000 * boot[35]
            } else {
                boot[19] + 0x100 * boot[20]
            }
        }),
{
    let tables = boot[16] as int;
    let table = boot[22] + 0x100 * boot[23];
    assert(0 <= tables * table <= 255 * 65535) by (nonlinear_arith)
        requires
            0 <= tables <= 255,
            0 <= table <= 65535,
    ;
}

/// The table holds two bytes for each cluster, from its first sector on.
pub proof fn law_table_entry(d: Image, l: Layout, c: int)
    requires
        image_ok(d),
        0 <= c,
        fat_get(d, l, c) is Some,
    ensures
        fat_get(d, l, c)->0 == disk_half(d, 512 * l.fat_start_lba + 2 * c),
{
    let pos = 512 * l.fat_start_lba + 2 * c;
    assert(pos / 512 == l.fat_start_lba + c * 2 / 512);
    assert(pos % 512 == c * 2 % 512);
    assert((pos + 1) / 512 == pos / 512);
    assert((pos + 1) % 512 == c * 2 % 512 + 1);
}

/// The clusters of a chain: each one is what the table holds for the one
/// before it.
pub open spec fn follows(d: Image, l: Layout, chain: Seq<int>) -> bool {
    forall|i: int|
        0 <= i < chain.len() - 1 ==> #[trigger] chain[i + 1] == disk_half(d, 512 * l.fat_start_lba + 2 * chain[i])
}

proof fn lemma_nth(d: Image, l: Layout, chain: Seq<int>, i: int)
    requires
        image_ok(d),
        0 <= i < chain.len(),
        follows(d, l, chain),
        forall|j: int| 0 <= j < chain.len() ==> 0 <= #[trigger] chain[j] && fat_get(d, l, chain[j]) is Some,
    ensures
        nth_cluster(d, l, chain[0], i) == chain[i],
    decreases i,
{
    if i > 0 {
        lemma_nth(d, l, chain, i - 1);
        law_table_entry(d, l, chain[i - 1]);
        assert(chain[(i - 1) + 1] == disk_half(d, 512 * l.fat_start_lba + 2 * chain[i - 1]));
    }
}

/// The bytes of a file that has been read come from the clusters of its
/// chain, in order: the first cluster of the data is number two, and clusters
/// lie one behind the other.
pub proof fn law_file_bytes(d: Image, l: Layout, e: Entry, chain: Seq<int>, p: int)
    requires
        image_ok(d),
        l.sectors_per_cluster > 0,
        entry_content(d, l, e) is Ok,
        0 <= p < (entry_content(d, l, e)->Ok_0).len(),
        chain.len() > p / (512 * l.sectors_per_cluster),
        chain[0] == e.cluster,
        follows(d, l, chain),
        forall|j: int| 0 <= j < chain.len() ==> 2 <= #[trigger] chain[j] && fat_get(d, l, chain[j]) is Some,
    ensures
        ({
            let size = 512 * l.sectors_per_cluster;
            (entry_content(d, l, e)->Ok_0)[p] == disk_byte(
                d,
                512 * l.data_start_lba + (chain[p / size] - 2) * size + p % size,
            )
        }),
{
    let data = entry_content(d, l, e)->Ok_0;
    let size = 512 * l.sectors_per_cluster;
    let per = l.sectors_per_cluster * 512;
    let first = e.cluster as int;
    assert(0 * per == 0);
    lemma_read_chain_bytes(d, l, first, 0, e.size as int, Seq::empty(), chain_budget(e.size as int));
    assert(data[p] == file_byte(d, l, first, p));
    let k = p / size;
    vstd::arithmetic::div_mod::lemma_fundamental_div_mod(p, size);
    vstd::arithmetic::div_mod::lemma_mod_bound(p, size);
    assert(0 <= k) by (nonlinear_arith)
        requires
            0 <= p,
            size > 0,
            k == p / size,
    ;
    lemma_nth(d, l, chain, k);
    let b = p % size;
    let c = chain[k];
    let pos = 512 * l.data_start_lba + (c - 2) * size + b;
    assert((c - 2) * size == 512 * ((c - 2) * l.sectors_per_cluster)) by (nonlinear_arith)
        requires
            size == 512 * l.sectors_per_cluster,
    ;
    assert(pos == 512 * cluster_lba(l, c) + b);
    assert(pos / 512 == cluster_lba(l, c) + b / 512);
    assert(pos % 512 == b % 512);
}

// ---- Paths ----

/// A name that a path can have: it is not empty and has no slash.
pub open spec fn path_name(name: Seq<u8>) -> bool {
    name.len() > 0 && forall|i: int| 0 <= i < name.len() ==> name[i] != 0x2F
}

/// A path leads where its last name leads from where the rest of it leads.
/// One that starts with a slash starts at the root, any other one where one
/// is.
pub proof fn law_walk(v: Volume, at: Place, path: Seq<u8>, name: Seq<u8>)
    requires
        path_name(name),
    ensures
        path.len() > 0 ==> walked(v, at, path + seq![0x2Fu8] + name) == match walked(v, at, path) {
            Ok(p) => stepped(v, p, name),
            Err(e) => Err(e),
        },
        walked(v, at, name) == stepped(v, at, name),
        walked(v, at, seq![0x2Fu8] + name) == stepped(
            v,
            (Place { location: DirLocation::Root, stack: Seq::empty() }),
            name,
        ),
{
    lemma_components(path, name);
    let root = Place { location: DirLocation::Root, stack: Seq::<(Seq<u8>, u32)>::empty() };
    let start = if path.len() > 0 && path[0] == 0x2F {
        root
    } else {
        at
    };
    lemma_steps_append(v, start, components(path), name);
    lemma_components(Seq::empty(), name);
    assert(Seq::<u8>::empty() + seq![0x2Fu8] + name =~= seq![0x2Fu8] + name);
    assert(components(Seq::<u8>::empty()) =~= Seq::empty());
    lemma_steps_append(v, root, Seq::empty(), name);
    lemma_steps_append(v, at, Seq::empty(), name);
    lemma_single(name);
    assert(Seq::<Seq<u8>>::empty().push(name) =~= seq![name]);
}

/// `.` stays, `..` goes to the directory that one
/// came from, and any other name goes to the directory of that name.
pub proof fn law_steps(v: Volume, at: Place, name: Seq<u8>)
    requires
        crate::volume::place_ok(at),
    ensures
        stepped(v, at, seq![0x2Eu8]) == Ok::<Place, &'static str>(at),
        name != seq![0x2Eu8] && name != seq![0x2Eu8, 0x2Eu8] ==> match (
            stepped(v, at, name),
            found(v, at.location, name),
        ) {
            (Ok(p), Ok(e)) => {
                &&& e.is_dir
                &&& p.location == DirLocation::Cluster(e.cluster)
                &&& stepped(v, p, seq![0x2Eu8, 0x2Eu8]) == Ok::<Place, &'static str>(at)
                &&& p.stack.last() == (e.name, e.cluster)
            },
            (Err(_), Ok(e)) => !e.is_dir,
            (Err(x), Err(y)) => x == y,
            (Ok(_), Err(_)) => false,
        },
        at.stack.len() == 0 ==> stepped(v, at, seq![0x2Eu8, 0x2Eu8]) == Ok::<Place, &'static str>(at),
{
    assert(seq![0x2Eu8] != seq![0x2Eu8, 0x2Eu8]) by {
        assert(seq![0x2Eu8].len() != seq![0x2Eu8, 0x2Eu8].len());
    }
    if at.stack.len() == 0 {
        assert(at.location == DirLocation::Root);
    }
    if let Ok(p) = stepped(v, at, name) {
        if name != seq![0x2Eu8] && name != seq![0x2Eu8, 0x2Eu8] {
            assert(p.stack.drop_last() =~= at.stack);
        }
    }
}

/// The last name of a path and what is before it: `/` if that is only the
/// first slash, nothing if the path has no slash.
pub proof fn law_parent_and_name(dir: Seq<u8>, name: Seq<u8>)
    requires
        path_name(name),
    ensures
        crate::volume::parent_and_name(dir + seq![0x2Fu8] + name) == (
            if dir.len() == 0 {
                seq![0x2Fu8]
            } else {
                dir
            },
            name,
        ),
        crate::volume::parent_and_name(name) == (Seq::<u8>::empty(), name),
{
    let path = dir + seq![0x2Fu8] + name;
    lemma_last(path, dir.len() as int);
    lemma_no_last(name);
    assert(path.take(dir.len() as int) =~= dir);
    assert(path.skip(dir.len() as int + 1) =~= name);
}

proof fn lemma_last(s: Seq<u8>, i: int)
    requires
        0 <= i < s.len(),
        s[i] == 0x2F,
        forall|j: int| i < j < s.len() ==> s[j] != 0x2F,
    ensures
        crate::volume::last_index(s, 0x2F) == Some(i),
    decreases s.len(),
{
    if s.last() != 0x2F {
        lemma_last(s.drop_last(), i);
    }
}

proof fn lemma_no_last(s: Seq<u8>)
    requires
        forall|j: int| 0 <= j < s.len() ==> s[j] != 0x2F,
    ensures
        crate::volume::last_index(s, 0x2F) is None,
    decreases s.len(),
{
    if s.len() > 0 {
        lemma_no_last(s.drop_last());
    }
}

} // verus!
