//! Laws of the FAT16 driver: what a read gives back of a write, what is left
//! after a removal, and what every write keeps.
use crate::le::{bytes16, bytes32, le16, lemma_le16_of_bytes16, lemma_le32_of_bytes32};
use crate::volume::{
    ATTR_DIRECTORY, ATTR_LFN, ATTR_VOLUME_ID, ENTRY_DELETED, ENTRY_DOT, ENTRY_FREE, Entry, File, Image, Layout,
    Listing, Place, Search, Volume, advanced, allocated, block, chain_budget, cluster_lba, content, content_range,
    entry_of, fat_get, fat_lba, fat_set, file_entry, file_record, first_named, found, free_cluster_from, freed,
    fresh_listing, image_ok, in_chain, last_index, latin, listed_record, listed_records, listed_sectors, listing, min,
    next_cluster, next_or_end, opened, read_chain, read_from, read_run, read_sectors, record, run, same_name,
    searched_record, searched_records, sector, short_name, short_text, splice, stored, trimmed, upper, utf8,
    valid_cluster, with16, write_run,
};
use vstd::prelude::*;

verus! {

/// A volume as formatting makes it: its cluster numbers are 16-bit numbers
/// that continue a chain, and its table has an entry for each.
pub open spec fn proper(l: Layout) -> bool {
    &&& l.wf()
    &&& l.allocatable()
    &&& l.num_fats >= 1
    &&& l.clusters() + 2 <= 0xFFF8
    &&& (l.clusters() + 2) * 2 <= l.fat_sectors * 512
}

/// Whether `c` is the number of a cluster of the data region.
pub open spec fn is_cluster(l: Layout, c: int) -> bool {
    2 <= c < l.clusters() + 2
}

/// Two images that differ in the tables only.
pub open spec fn same_outside_fats(d: Image, d1: Image, l: Layout) -> bool {
    &&& d1.len() == d.len()
    &&& forall|lba: int|
        lba < l.fat_start_lba || lba >= l.root_dir_start_lba ==> #[trigger] sector(d1, lba) == sector(d, lba)
}

proof fn lemma_copy_place(l: Layout, k: int, w: int)
    requires
        l.wf(),
        0 <= k < l.num_fats,
        0 <= w < l.fat_sectors,
    ensures
        l.fat_start_lba + k * l.fat_sectors + w < l.root_dir_start_lba,
        l.fat_start_lba <= l.fat_start_lba + k * l.fat_sectors + w,
        k >= 1 ==> l.fat_start_lba + l.fat_sectors <= l.fat_start_lba + k * l.fat_sectors + w,
{
    let n = l.num_fats as int;
    let f = l.fat_sectors as int;
    assert(0 <= k * f && k * f + f <= n * f && (k >= 1 ==> f <= k * f)) by (nonlinear_arith)
        requires
            0 <= k < n,
            0 < f,
    ;
}

proof fn lemma_entry_sector(l: Layout, c: int)
    requires
        proper(l),
        0 <= c < l.clusters() + 2,
    ensures
        0 <= c * 2 / 512 < l.fat_sectors,
        c * 2 % 512 + 2 <= 512,
{
}

proof fn lemma_with16(s: Seq<u8>, i: int, v: u16, j: int)
    requires
        0 <= i,
        i + 2 <= s.len(),
        0 <= j,
        j + 2 <= s.len(),
        i % 2 == 0,
        j % 2 == 0,
    ensures
        with16(s, i, v).len() == s.len(),
        le16(with16(s, i, v), j) == if i == j {
            v
        } else {
            le16(s, j)
        },
{
    if i == j {
        assert(with16(s, i, v).subrange(i, i + 2) =~= bytes16(v));
        lemma_le16_of_bytes16(with16(s, i, v), i, v);
    }
}

/// Storing a table entry changes that entry and no other, and nothing outside
/// the tables.
pub(crate) proof fn lemma_fat_set(d: Image, l: Layout, c: int, v: u16, k: int)
    requires
        image_ok(d),
        proper(l),
        0 <= c < l.clusters() + 2,
        0 <= k <= l.num_fats,
        fat_set(d, l, c, v, k).1 is Ok,
    ensures
        image_ok(fat_set(d, l, c, v, k).0),
        same_outside_fats(d, fat_set(d, l, c, v, k).0, l),
        k >= 1 ==> forall|x: int|
            0 <= x < l.clusters() + 2 ==> #[trigger] fat_get(fat_set(d, l, c, v, k).0, l, x) == if x == c {
                Some(v)
            } else {
                fat_get(d, l, x)
            },
    decreases k,
{
    if k > 0 {
        lemma_fat_set(d, l, c, v, k - 1);
        let d0 = fat_set(d, l, c, v, k - 1).0;
        let d1 = fat_set(d, l, c, v, k).0;
        let w = c * 2 / 512;
        let lba = l.fat_start_lba + (k - 1) * l.fat_sectors + w;
        lemma_entry_sector(l, c);
        lemma_copy_place(l, k - 1, w);
        let s = sector(d0, lba)->Ok_0;
        lemma_with16(s, c * 2 % 512, v, c * 2 % 512);
        assert forall|x: int| x < l.fat_start_lba || x >= l.root_dir_start_lba implies #[trigger] sector(d1, x)
            == sector(d, x) by {
            assert(sector(d0, x) == sector(d, x));
        }
        assert forall|x: int| 0 <= x < l.clusters() + 2 implies #[trigger] fat_get(d1, l, x) == if x == c {
            Some(v)
        } else {
            fat_get(d, l, x)
        } by {
            lemma_entry_sector(l, x);
            if k == 1 {
                assert((k - 1) * l.fat_sectors == 0);
                assert(d0 == d);
                if fat_lba(l, x) == lba {
                    lemma_with16(s, c * 2 % 512, v, x * 2 % 512);
                }
            } else {
                assert(fat_lba(l, x) != lba);
                assert(fat_get(d0, l, x) == if x == c {
                    Some(v)
                } else {
                    fat_get(d, l, x)
                });
            }
        }
    }
}

/// A run of sectors of the data region is written as asked, and nothing else
/// changes.
proof fn lemma_write_run(d: Image, lba: int, data: Seq<u8>, off: int, n: int)
    requires
        image_ok(d),
        0 <= lba,
        0 <= n,
        write_run(d, lba, data, off, n).1 is Ok,
    ensures
        image_ok(write_run(d, lba, data, off, n).0),
        write_run(d, lba, data, off, n).0.len() == d.len(),
        forall|x: int|
            #[trigger] sector(write_run(d, lba, data, off, n).0, x) == if lba <= x < lba + n {
                Ok::<Seq<u8>, &'static str>(block(data, off + 512 * (x - lba)))
            } else {
                sector(d, x)
            },
    decreases n,
{
    if n > 0 {
        lemma_write_run(d, lba, data, off, n - 1);
        let d0 = write_run(d, lba, data, off, n - 1).0;
        let d1 = write_run(d, lba, data, off, n).0;
        assert forall|x: int| #[trigger] sector(d1, x) == if lba <= x < lba + n {
            Ok::<Seq<u8>, &'static str>(block(data, off + 512 * (x - lba)))
        } else {
            sector(d, x)
        } by {
            assert(sector(d0, x) == if lba <= x < lba + n - 1 {
                Ok::<Seq<u8>, &'static str>(block(data, off + 512 * (x - lba)))
            } else {
                sector(d, x)
            });
        }
    }
}

/// The table is read the same from images that agree on it.
pub(crate) proof fn lemma_fat_get_same(d: Image, d1: Image, l: Layout, c: int)
    requires
        proper(l),
        0 <= c < l.clusters() + 2,
        forall|x: int|
            l.fat_start_lba <= x < l.root_dir_start_lba ==> #[trigger] sector(d1, x) == sector(d, x),
    ensures
        fat_get(d1, l, c) == fat_get(d, l, c),
{
    lemma_entry_sector(l, c);
    lemma_copy_place(l, 0, c * 2 / 512);
    assert(0 * l.fat_sectors == 0);
}

proof fn lemma_free_cluster(d: Image, l: Layout, c: int)
    requires
        2 <= c,
        free_cluster_from(d, l, c) is Ok,
    ensures
        ({
            let x = free_cluster_from(d, l, c)->Ok_0;
            c <= x < l.clusters() + 2 && fat_get(d, l, x) == Some(0u16)
        }),
    decreases l.clusters() + 2 - c,
{
    if c < l.clusters() + 2 && fat_get(d, l, c) != Some(0u16) {
        lemma_free_cluster(d, l, c + 1);
    }
}

/// A cluster that is allocated was free, is the end of a chain then, and
/// nothing else changes.
pub proof fn law_allocate(d: Image, l: Layout)
    requires
        image_ok(d),
        proper(l),
        allocated(d, l).1 is Ok,
    ensures
        ({
            let (d1, r) = allocated(d, l);
            let c = r->Ok_0;
            &&& image_ok(d1)
            &&& is_cluster(l, c)
            &&& fat_get(d, l, c) == Some(0u16)
            &&& same_outside_fats(d, d1, l)
            &&& forall|x: int|
                0 <= x < l.clusters() + 2 ==> #[trigger] fat_get(d1, l, x) == if x == c {
                    Some(0xFFFFu16)
                } else {
                    fat_get(d, l, x)
                }
        }),
{
    lemma_free_cluster(d, l, 2);
    let c = free_cluster_from(d, l, 2)->Ok_0;
    lemma_fat_set(d, l, c, 0xFFFF, l.num_fats as int);
}

/// The clusters that storing `data` allocates, in order.
pub open spec fn stored_clusters(d: Image, l: Layout, data: Seq<u8>, off: int, prev: Option<int>) -> Seq<int>
    decreases data.len() - off,
    when l.sectors_per_cluster > 0
{
    if off >= data.len() {
        Seq::empty()
    } else {
        match allocated(d, l) {
            (d1, Err(_)) => Seq::empty(),
            (d1, Ok(c)) => {
                let d2 = match prev {
                    Some(p) => fat_set(d1, l, p, (c % 0x1_0000) as u16, l.num_fats as int).0,
                    None => d1,
                };
                let d3 = write_run(d2, cluster_lba(l, c), data, off, l.sectors_per_cluster as int).0;
                seq![c] + stored_clusters(
                    d3,
                    l,
                    data,
                    min(off + l.sectors_per_cluster * 512, data.len() as int),
                    Some(c),
                )
            },
        }
    }
}

/// Whether sector `x` belongs to cluster `c`.
pub open spec fn in_cluster(l: Layout, c: int, x: int) -> bool {
    cluster_lba(l, c) <= x < cluster_lba(l, c) + l.sectors_per_cluster
}

pub(crate) proof fn lemma_clusters_apart(l: Layout, a: int, b: int, x: int)
    requires
        l.wf(),
        in_cluster(l, a, x),
        in_cluster(l, b, x),
    ensures
        a == b,
{
    let n = l.sectors_per_cluster as int;
    if a < b {
        assert((a - 2) * n + n <= (b - 2) * n) by (nonlinear_arith)
            requires
                a < b,
                n > 0,
        ;
    } else if b < a {
        assert((b - 2) * n + n <= (a - 2) * n) by (nonlinear_arith)
            requires
                b < a,
                n > 0,
        ;
    }
}

pub(crate) proof fn lemma_cluster_in_data(l: Layout, c: int)
    requires
        proper(l),
        is_cluster(l, c),
    ensures
        l.root_dir_start_lba + l.root_dir_sectors == l.data_start_lba,
        l.data_start_lba <= cluster_lba(l, c),
        cluster_lba(l, c) + l.sectors_per_cluster <= l.total_sectors,
{
    let spc = l.sectors_per_cluster as int;
    let room = l.total_sectors - l.data_start_lba;
    assert(0 <= (c - 2) * spc && (c - 2) * spc + spc <= room) by (nonlinear_arith)
        requires
            2 <= c,
            c - 2 < room / spc,
            spc > 0,
            room >= 0,
    ;
}

/// The clusters `cs` were free, and are as many as `data` needs from `off` on.
pub open spec fn fresh_clusters(d: Image, l: Layout, data: Seq<u8>, off: int, cs: Seq<int>) -> bool {
    let per = l.sectors_per_cluster * 512;
    &&& off < data.len() ==> cs.len() > 0
    &&& cs.len() > 0 ==> data.len() <= off + cs.len() * per
    &&& forall|i: int|
        0 <= i < cs.len() ==> is_cluster(l, #[trigger] cs[i]) && fat_get(d, l, cs[i]) == Some(0u16)
            && off + i * per < data.len()
}

/// The table entry that cluster `i` of the chain `cs` has.
pub open spec fn link_after(cs: Seq<int>, i: int) -> Option<u16> {
    if i + 1 < cs.len() {
        Some(cs[i + 1] as u16)
    } else {
        Some(0xFFFFu16)
    }
}

/// The table links the clusters `cs` in order and ends the chain there.
pub open spec fn linked_up(d1: Image, l: Layout, cs: Seq<int>) -> bool {
    forall|i: int| 0 <= i < cs.len() ==> fat_get(d1, l, cs[i]) == #[trigger] link_after(cs, i)
}

/// No other entry of the table has changed, but that `prev` links the first.
pub open spec fn only_linked(d: Image, d1: Image, l: Layout, prev: Option<int>, cs: Seq<int>) -> bool {
    forall|c: int|
        0 <= c < l.clusters() + 2 && !cs.contains(c) ==> #[trigger] fat_get(d1, l, c) == if prev == Some(c)
            && cs.len() > 0 {
            Some(cs[0] as u16)
        } else {
            fat_get(d, l, c)
        }
}

/// The sectors of the clusters `cs` hold `data` from `off` on.
pub open spec fn filled(d1: Image, l: Layout, data: Seq<u8>, off: int, cs: Seq<int>) -> bool {
    forall|i: int, k: int|
        0 <= i < cs.len() && 0 <= k < l.sectors_per_cluster ==> sector(
            d1,
            #[trigger] cluster_sector(l, #[trigger] cs[i], k),
        ) == Ok::<Seq<u8>, &'static str>(block(data, off + i * (l.sectors_per_cluster * 512) + 512 * k))
}

/// No sector after the tables has changed that is not in one of the clusters.
pub open spec fn only_filled(d: Image, d1: Image, l: Layout, cs: Seq<int>) -> bool {
    forall|x: int|
        x >= l.root_dir_start_lba && (forall|i: int|
            0 <= i < cs.len() ==> !in_cluster(l, #[trigger] cs[i], x)) ==> #[trigger] sector(d1, x) == sector(
            d,
            x,
        )
}

/// What storing `data` has done: the clusters `cs` form a chain that holds
/// it, and no other cluster's entry and no other sector has changed.
pub open spec fn holds(
    d: Image,
    d1: Image,
    l: Layout,
    data: Seq<u8>,
    off: int,
    prev: Option<int>,
    cs: Seq<int>,
) -> bool {
    &&& image_ok(d1)
    &&& d1.len() == d.len()
    &&& fresh_clusters(d, l, data, off, cs)
    &&& linked_up(d1, l, cs)
    &&& only_linked(d, d1, l, prev, cs)
    &&& filled(d1, l, data, off, cs)
    &&& only_filled(d, d1, l, cs)
}

/// Sector `k` of cluster `c`.
pub open spec fn cluster_sector(l: Layout, c: int, k: int) -> int {
    cluster_lba(l, c) + k
}

pub(crate) proof fn lemma_mul_step(i: int, per: int)
    by (nonlinear_arith)
    ensures
        (i + 1) * per == i * per + per,
        0 * per == 0,
{
}

/// The first step of storing: one cluster allocated, linked and filled.
spec fn first_step(d: Image, l: Layout, data: Seq<u8>, off: int, prev: Option<int>) -> (Image, int) {
    let (d1, r) = allocated(d, l);
    let c = r->Ok_0;
    let d2 = match prev {
        Some(p) => fat_set(d1, l, p, (c % 0x1_0000) as u16, l.num_fats as int).0,
        None => d1,
    };
    (write_run(d2, cluster_lba(l, c), data, off, l.sectors_per_cluster as int).0, c)
}

proof fn lemma_first_step(d: Image, l: Layout, data: Seq<u8>, off: int, prev: Option<int>, first: int)
    requires
        image_ok(d),
        proper(l),
        0 <= off < data.len(),
        prev matches Some(p) ==> is_cluster(l, p) && fat_get(d, l, p) != Some(0u16),
        stored(d, l, data, off, prev, first).1 is Ok,
    ensures
        ({
            let (d3, c) = first_step(d, l, data, off, prev);
            &&& image_ok(d3)
            &&& d3.len() == d.len()
            &&& stepped_once(d, d3, l, data, off, prev, c)
            &&& stored(d, l, data, off, prev, first) == stored(
                d3,
                l,
                data,
                min(off + l.sectors_per_cluster * 512, data.len() as int),
                Some(c),
                if first == 0 {
                    c
                } else {
                    first
                },
            )
            &&& stored_clusters(d, l, data, off, prev) == seq![c] + stored_clusters(
                d3,
                l,
                data,
                min(off + l.sectors_per_cluster * 512, data.len() as int),
                Some(c),
            )
        }),
{
    let (d1, r) = allocated(d, l);
    let c = r->Ok_0;
    law_allocate(d, l);
    let d2 = match prev {
        Some(p) => fat_set(d1, l, p, (c % 0x1_0000) as u16, l.num_fats as int).0,
        None => d1,
    };
    if let Some(p) = prev {
        lemma_fat_set(d1, l, p, (c % 0x1_0000) as u16, l.num_fats as int);
    }
    lemma_cluster_in_data(l, c);
    let base = cluster_lba(l, c);
    let n = l.sectors_per_cluster as int;
    lemma_write_run(d2, base, data, off, n);
    let d3 = write_run(d2, base, data, off, n).0;
    assert forall|x: int| 0 <= x < l.clusters() + 2 implies #[trigger] fat_get(d3, l, x) == fat_get(d2, l, x) by {
        lemma_fat_get_same(d2, d3, l, x);
    }
    assert forall|x: int| 0 <= x < l.clusters() + 2 && x != c implies #[trigger] fat_get(d3, l, x)
        == if prev == Some(x) {
        Some(c as u16)
    } else {
        fat_get(d, l, x)
    } by {
        assert(fat_get(d1, l, x) == fat_get(d, l, x));
    }
    assert(fat_get(d3, l, c) == Some(0xFFFFu16)) by {
        assert(fat_get(d1, l, c) == Some(0xFFFFu16));
        assert(fat_get(d2, l, c) == fat_get(d1, l, c));
    }
    assert forall|x: int| x >= l.root_dir_start_lba && !in_cluster(l, c, x) implies #[trigger] sector(d3, x)
        == sector(d, x) by {
        assert(sector(d2, x) == sector(d1, x));
        assert(sector(d1, x) == sector(d, x));
    }
}

/// What one step of storing has done.
spec fn stepped_once(
    d: Image,
    d3: Image,
    l: Layout,
    data: Seq<u8>,
    off: int,
    prev: Option<int>,
    c: int,
) -> bool {
    &&& is_cluster(l, c)
    &&& fat_get(d, l, c) == Some(0u16)
    &&& fat_get(d3, l, c) == Some(0xFFFFu16)
    &&& forall|x: int|
        0 <= x < l.clusters() + 2 && x != c ==> #[trigger] fat_get(d3, l, x) == if prev == Some(x) {
            Some(c as u16)
        } else {
            fat_get(d, l, x)
        }
    &&& forall|k: int|
        0 <= k < l.sectors_per_cluster ==> sector(d3, #[trigger] cluster_sector(l, c, k)) == Ok::<Seq<u8>, &'static str>(
            block(data, off + 512 * k),
        )
    &&& forall|x: int|
        x >= l.root_dir_start_lba && !in_cluster(l, c, x) ==> #[trigger] sector(d3, x) == sector(d, x)
}

/// The clusters that come after the first are other ones.
proof fn lemma_rest_fresh(
    d: Image,
    d3: Image,
    l: Layout,
    data: Seq<u8>,
    off: int,
    prev: Option<int>,
    c: int,
    rest: Seq<int>,
)
    requires
        proper(l),
        0 <= off < data.len(),
        prev matches Some(p) ==> is_cluster(l, p) && fat_get(d, l, p) != Some(0u16),
        stepped_once(d, d3, l, data, off, prev, c),
        fresh_clusters(d3, l, data, min(off + l.sectors_per_cluster * 512, data.len() as int), rest),
    ensures
        forall|i: int|
            0 <= i < rest.len() ==> (#[trigger] rest[i]) != c && prev != Some(rest[i]) && fat_get(
                d,
                l,
                rest[i],
            ) == Some(0u16),
        rest.len() > 0 ==> off + l.sectors_per_cluster * 512 < data.len(),
        fresh_clusters(d, l, data, off, seq![c] + rest),
        !rest.contains(c),
{
    let per = l.sectors_per_cluster * 512;
    let next = min(off + per, data.len() as int);
    let cs = seq![c] + rest;
    lemma_mul_step(0, per);
    if rest.len() > 0 {
        assert(is_cluster(l, rest[0]));
    }
    assert forall|i: int| 0 <= i < rest.len() implies (#[trigger] rest[i]) != c && prev != Some(rest[i])
        && fat_get(d, l, rest[i]) == Some(0u16) by {
        assert(fat_get(d3, l, rest[i]) == Some(0u16));
    }
    assert forall|i: int| 0 <= i < cs.len() implies is_cluster(l, #[trigger] cs[i]) && fat_get(d, l, cs[i])
        == Some(0u16) && off + i * per < data.len() by {
        lemma_mul_step(i - 1, per);
        if i > 0 {
            assert(cs[i] == rest[i - 1]);
        }
    }
    lemma_mul_step(rest.len() as int, per);
    if rest.contains(c) {
        let i = choose|i: int| 0 <= i < rest.len() && rest[i] == c;
        assert(rest[i] != c);
    }
}

proof fn lemma_rest_linked(
    d: Image,
    d3: Image,
    d4: Image,
    l: Layout,
    data: Seq<u8>,
    off: int,
    prev: Option<int>,
    c: int,
    rest: Seq<int>,
)
    requires
        proper(l),
        stepped_once(d, d3, l, data, off, prev, c),
        forall|i: int| 0 <= i < rest.len() ==> is_cluster(l, #[trigger] rest[i]),
        !rest.contains(c),
        linked_up(d4, l, rest),
        only_linked(d3, d4, l, Some(c), rest),
    ensures
        linked_up(d4, l, seq![c] + rest),
        only_linked(d, d4, l, prev, seq![c] + rest),
{
    let cs = seq![c] + rest;
    assert(cs[0] == c);
    assert forall|i: int| 0 <= i < cs.len() implies fat_get(d4, l, cs[i]) == #[trigger] link_after(cs, i) by {
        if i > 0 {
            assert(cs[i] == rest[i - 1]);
            assert(fat_get(d4, l, rest[i - 1]) == link_after(rest, i - 1));
            if i + 1 < cs.len() {
                assert(cs[i + 1] == rest[i]);
            }
        } else if cs.len() > 1 {
            assert(cs[1] == rest[0]);
        }
    }
    assert forall|x: int| 0 <= x < l.clusters() + 2 && !cs.contains(x) implies #[trigger] fat_get(d4, l, x)
        == if prev == Some(x) && cs.len() > 0 {
        Some(cs[0] as u16)
    } else {
        fat_get(d, l, x)
    } by {
        assert(x != c) by {
            assert(cs.contains(cs[0]));
        }
        assert(!rest.contains(x)) by {
            if rest.contains(x) {
                let i = choose|i: int| 0 <= i < rest.len() && rest[i] == x;
                assert(cs[i + 1] == x);
            }
        }
        assert(fat_get(d4, l, x) == fat_get(d3, l, x));
    }
}

proof fn lemma_rest_filled(
    d: Image,
    d3: Image,
    d4: Image,
    l: Layout,
    data: Seq<u8>,
    off: int,
    prev: Option<int>,
    c: int,
    rest: Seq<int>,
)
    requires
        proper(l),
        stepped_once(d, d3, l, data, off, prev, c),
        forall|i: int| 0 <= i < rest.len() ==> (#[trigger] rest[i]) != c,
        rest.len() > 0 ==> off + l.sectors_per_cluster * 512 < data.len(),
        filled(d4, l, data, min(off + l.sectors_per_cluster * 512, data.len() as int), rest),
        only_filled(d3, d4, l, rest),
    ensures
        filled(d4, l, data, off, seq![c] + rest),
        only_filled(d, d4, l, seq![c] + rest),
{
    let per = l.sectors_per_cluster * 512;
    let next = min(off + per, data.len() as int);
    let cs = seq![c] + rest;
    assert(cs[0] == c);
    assert forall|i: int, k: int| 0 <= i < cs.len() && 0 <= k < l.sectors_per_cluster implies sector(
        d4,
        #[trigger] cluster_sector(l, #[trigger] cs[i], k),
    ) == Ok::<Seq<u8>, &'static str>(block(data, off + i * per + 512 * k)) by {
        lemma_mul_step(i - 1, per);
        let x = cluster_sector(l, cs[i], k);
        if i == 0 {
            lemma_cluster_in_data(l, c);
            assert forall|j: int| 0 <= j < rest.len() implies !in_cluster(l, #[trigger] rest[j], x) by {
                if in_cluster(l, rest[j], x) {
                    lemma_clusters_apart(l, rest[j], c, x);
                }
            }
            assert(sector(d4, x) == sector(d3, x));
            lemma_mul_step(0, per);
        } else {
            assert(cs[i] == rest[i - 1]);
            assert(sector(d4, cluster_sector(l, rest[i - 1], k)) == Ok::<Seq<u8>, &'static str>(
                block(data, next + (i - 1) * per + 512 * k),
            ));
        }
    }
    assert forall|x: int|
        x >= l.root_dir_start_lba && (forall|i: int|
            0 <= i < cs.len() ==> !in_cluster(l, #[trigger] cs[i], x)) implies #[trigger] sector(d4, x)
        == sector(d, x) by {
        assert(!in_cluster(l, cs[0], x));
        assert forall|i: int| 0 <= i < rest.len() implies !in_cluster(l, #[trigger] rest[i], x) by {
            assert(cs[i + 1] == rest[i]);
        }
        assert(sector(d4, x) == sector(d3, x));
    }
}

pub(crate) proof fn lemma_stored(d: Image, l: Layout, data: Seq<u8>, off: int, prev: Option<int>, first: int)
    requires
        image_ok(d),
        proper(l),
        0 <= off <= data.len(),
        prev matches Some(p) ==> is_cluster(l, p) && fat_get(d, l, p) != Some(0u16),
        stored(d, l, data, off, prev, first).1 is Ok,
    ensures
        holds(
            d,
            stored(d, l, data, off, prev, first).0,
            l,
            data,
            off,
            prev,
            stored_clusters(d, l, data, off, prev),
        ),
        stored(d, l, data, off, prev, first).1->Ok_0 == if first == 0 && off < data.len() {
            stored_clusters(d, l, data, off, prev)[0]
        } else {
            first
        },
    decreases data.len() - off,
{
    if off < data.len() {
        lemma_first_step(d, l, data, off, prev, first);
        let (d3, c) = first_step(d, l, data, off, prev);
        let next = min(off + l.sectors_per_cluster * 512, data.len() as int);
        let first1 = if first == 0 {
            c
        } else {
            first
        };
        lemma_stored(d3, l, data, next, Some(c), first1);
        let rest = stored_clusters(d3, l, data, next, Some(c));
        let d4 = stored(d, l, data, off, prev, first).0;
        assert((seq![c] + rest)[0] == c);
        lemma_rest_fresh(d, d3, l, data, off, prev, c, rest);
        lemma_rest_linked(d, d3, d4, l, data, off, prev, c, rest);
        lemma_rest_filled(d, d3, d4, l, data, off, prev, c, rest);
    } else {
        assert(stored_clusters(d, l, data, off, prev) =~= Seq::empty());
    }
}

/// Reading the sectors of a cluster that holds `data` from `off` on.
proof fn lemma_read_sectors(d: Image, l: Layout, c: int, data: Seq<u8>, off: int, k: int)
    requires
        image_ok(d),
        0 <= off,
        0 <= k <= l.sectors_per_cluster,
        off + 512 * k < data.len() || k == l.sectors_per_cluster,
        off + 512 * k <= data.len(),
        forall|j: int|
            k <= j < l.sectors_per_cluster ==> sector(d, #[trigger] cluster_sector(l, c, j)) == Ok::<Seq<u8>, &'static str>(
                block(data, off + 512 * j),
            ),
    ensures
        read_sectors(
            d,
            cluster_lba(l, c) + k,
            l.sectors_per_cluster - k,
            data.len() as int,
            data.take(off + 512 * k),
        ) == Ok::<Seq<u8>, &'static str>(data.take(min(off + 512 * l.sectors_per_cluster, data.len() as int))),
    decreases l.sectors_per_cluster - k,
{
    if k < l.sectors_per_cluster {
        assert(sector(d, cluster_sector(l, c, k)) == Ok::<Seq<u8>, &'static str>(block(data, off + 512 * k)));
        let at = off + 512 * k;
        let got = data.take(at);
        let s = block(data, at);
        let more = got + s.take(min(data.len() - got.len(), 512));
        assert(more =~= data.take(min(at + 512, data.len() as int)));
        if more.len() < data.len() {
            lemma_read_sectors(d, l, c, data, off, k + 1);
        } else {
            assert(data.take(min(off + 512 * l.sectors_per_cluster, data.len() as int)) =~= more);
        }
    }
}

/// Reading a chain that holds `data` gives `data`.
pub(crate) proof fn lemma_read_back(d: Image, l: Layout, data: Seq<u8>, cs: Seq<int>, i: int, left: nat)
    requires
        image_ok(d),
        proper(l),
        0 <= i < cs.len(),
        cs.len() <= left + i,
        data.len() <= cs.len() * (l.sectors_per_cluster * 512),
        i * (l.sectors_per_cluster * 512) < data.len(),
        forall|j: int| 0 <= j < cs.len() ==> is_cluster(l, #[trigger] cs[j]),
        linked_up(d, l, cs),
        filled(d, l, data, 0, cs),
    ensures
        read_chain(
            d,
            l,
            cs[i],
            data.len() as int,
            data.take(i * (l.sectors_per_cluster * 512)),
            left,
        ) == Ok::<Seq<u8>, &'static str>(data),
    decreases cs.len() - i,
{
    let per = l.sectors_per_cluster * 512;
    let off = i * per;
    assert(off >= 0) by (nonlinear_arith)
        requires
            i >= 0,
            per >= 0,
            off == i * per,
    ;
    assert forall|j: int| 0 <= j < l.sectors_per_cluster implies sector(
        d,
        #[trigger] cluster_sector(l, cs[i], j),
    ) == Ok::<Seq<u8>, &'static str>(block(data, off + 512 * j)) by {
        let c = cs[i];
        assert(sector(d, cluster_sector(l, cs[i], j)) == Ok::<Seq<u8>, &'static str>(block(data, 0 + i * per + 512 * j)));
    }
    lemma_read_sectors(d, l, cs[i], data, off, 0);
    lemma_mul_step(i, per);
    let more = data.take(min(off + per, data.len() as int));
    assert(is_cluster(l, cs[i]));
    assert(in_chain(cs[i]));
    assert(fat_get(d, l, cs[i]) == link_after(cs, i));
    reveal_with_fuel(read_chain, 2);
    assert(read_sectors(
        d,
        cluster_lba(l, cs[i]),
        l.sectors_per_cluster as int,
        data.len() as int,
        data.take(off),
    ) == Ok::<Seq<u8>, &'static str>(more));
    if off + per < data.len() {
        if i + 1 >= cs.len() {
            assert(false);
        }
        assert(is_cluster(l, cs[i + 1]));
        lemma_read_back(d, l, data, cs, i + 1, (left - 1) as nat);
    } else {
        assert(more =~= data);
    }
}

/// Storing some bytes in fresh clusters and reading the chain back gives the
/// bytes.
pub proof fn law_store_then_read(d: Image, l: Layout, data: Seq<u8>)
    requires
        image_ok(d),
        proper(l),
        stored(d, l, data, 0, None, 0).1 is Ok,
    ensures
        ({
            let (d1, r) = stored(d, l, data, 0, None, 0);
            read_chain(d1, l, r->Ok_0, data.len() as int, Seq::empty(), chain_budget(data.len() as int)) == Ok::<
                Seq<u8>,
                &'static str,
            >(data)
        }),
{
    lemma_stored(d, l, data, 0, None, 0);
    let cs = stored_clusters(d, l, data, 0, None);
    let d1 = stored(d, l, data, 0, None, 0).0;
    let per = l.sectors_per_cluster * 512;
    if data.len() > 0 {
        lemma_mul_step(0, per);
        let last = cs.len() - 1;
        assert(is_cluster(l, cs[last]) && 0 + last * per < data.len());
        assert(last <= last * per) by (nonlinear_arith)
            requires
                last >= 0,
                per >= 1,
        ;
        assert(data.take(0) =~= Seq::empty());
        lemma_read_back(d1, l, data, cs, 0, chain_budget(data.len() as int));
    } else {
        assert(data =~= Seq::empty());
    }
}

// ---- Directories by position ----

/// Record number `p` of a directory that lies in the sectors `dir`.
pub open spec fn record_at(d: Image, dir: Seq<int>, p: int) -> Seq<u8> {
    record(sector(d, dir[p / 16])->Ok_0, p % 16)
}

/// The listing of the first `p` records of a directory.
pub open spec fn listed_to(d: Image, dir: Seq<int>, p: int) -> Listing
    decreases p,
{
    if p <= 0 {
        fresh_listing()
    } else {
        listed_record(listed_to(d, dir, p - 1), record_at(d, dir, p - 1))
    }
}

/// Every sector of a directory can be read.
pub open spec fn readable(d: Image, dir: Seq<int>) -> bool {
    forall|i: int| 0 <= i < dir.len() ==> sector(d, #[trigger] dir[i]) is Ok
}

/// None of the first `p` records is the end mark.
pub open spec fn no_end(d: Image, dir: Seq<int>, p: int) -> bool {
    forall|j: int| 0 <= j < p ==> (#[trigger] record_at(d, dir, j))[0] != ENTRY_FREE
}

proof fn lemma_listed_sector(d: Image, dir: Seq<int>, i: int, k: int)
    requires
        0 <= i < dir.len(),
        0 <= k <= 16,
    ensures
        listed_records(listed_to(d, dir, 16 * i), sector(d, dir[i])->Ok_0, k) == listed_to(d, dir, 16 * i + k),
    decreases k,
{
    if k > 0 {
        lemma_listed_sector(d, dir, i, k - 1);
        let p = 16 * i + k - 1;
        assert(p / 16 == i && p % 16 == k - 1);
    }
}

pub(crate) proof fn lemma_done_stays(d: Image, dir: Seq<int>, p: int, q: int)
    requires
        0 <= p <= q,
        listed_to(d, dir, p).done,
    ensures
        listed_to(d, dir, q) == listed_to(d, dir, p),
    decreases q - p,
{
    if p < q {
        lemma_done_stays(d, dir, p, q - 1);
    }
}

/// Listing a readable directory sector by sector is listing it record by
/// record.
pub(crate) proof fn lemma_listing(d: Image, dir: Seq<int>, i: int)
    requires
        readable(d, dir),
        0 <= i <= dir.len(),
    ensures
        listed_sectors(d, listed_to(d, dir, 16 * i), dir.skip(i)) == Ok::<Seq<Entry>, &'static str>(
            listed_to(d, dir, 16 * dir.len() as int).entries,
        ),
    decreases dir.len() - i,
{
    let x = listed_to(d, dir, 16 * i);
    if x.done {
        lemma_done_stays(d, dir, 16 * i, 16 * dir.len() as int);
    } else if i < dir.len() {
        assert(dir.skip(i)[0] == dir[i]);
        assert(dir.skip(i).drop_first() =~= dir.skip(i + 1));
        lemma_listed_sector(d, dir, i, 16);
        lemma_listing(d, dir, i + 1);
    }
}

/// Later records only add to a listing.
pub(crate) proof fn lemma_listed_grows(d: Image, dir: Seq<int>, p: int, q: int)
    requires
        0 <= p <= q,
    ensures
        listed_to(d, dir, p).entries.len() <= listed_to(d, dir, q).entries.len(),
        listed_to(d, dir, q).entries.take(listed_to(d, dir, p).entries.len() as int) == listed_to(
            d,
            dir,
            p,
        ).entries,
    decreases q - p,
{
    let a = listed_to(d, dir, p).entries;
    if p < q {
        lemma_listed_grows(d, dir, p, q - 1);
        let b = listed_to(d, dir, q - 1).entries;
        let c = listed_to(d, dir, q).entries;
        assert(c.take(a.len() as int) =~= b.take(a.len() as int));
    } else {
        assert(a.take(a.len() as int) =~= a);
    }
}

pub(crate) proof fn lemma_not_done(d: Image, dir: Seq<int>, p: int)
    requires
        0 <= p,
        no_end(d, dir, p),
    ensures
        !listed_to(d, dir, p).done,
    decreases p,
{
    if p > 0 {
        assert(record_at(d, dir, p - 1)[0] != ENTRY_FREE);
        assert(no_end(d, dir, p - 1));
        lemma_not_done(d, dir, p - 1);
    }
}

/// A name that nothing before shows is found where it first shows.
pub(crate) proof fn lemma_first_named(entries: Seq<Entry>, i: int, name: Seq<u8>)
    requires
        0 <= i < entries.len(),
        first_named(entries.take(i), name) is None,
        same_name(entries[i].name, name),
    ensures
        first_named(entries, name) == Some(entries[i]),
    decreases i,
{
    if i > 0 {
        assert(entries.take(i)[0] == entries[0]);
        assert(entries.take(i).drop_first() =~= entries.drop_first().take(i - 1));
        lemma_first_named(entries.drop_first(), i - 1, name);
    }
}

/// Directories that agree record by record are listed alike.
pub(crate) proof fn lemma_listed_same(d: Image, d1: Image, dir: Seq<int>, p: int)
    requires
        forall|j: int| 0 <= j < p ==> #[trigger] record_at(d1, dir, j) == record_at(d, dir, j),
    ensures
        listed_to(d1, dir, p) == listed_to(d, dir, p),
    decreases p,
{
    if p > 0 {
        lemma_listed_same(d, d1, dir, p - 1);
        assert(record_at(d1, dir, p - 1) == record_at(d, dir, p - 1));
    }
}

/// Whether offset `off` of sector `lba` is record `q` of the directory, and
/// no end mark precedes it.
pub open spec fn is_slot(d: Image, dir: Seq<int>, lba: int, off: int, q: int) -> bool {
    &&& 0 <= q < 16 * dir.len()
    &&& lba == dir[q / 16]
    &&& off == 32 * (q % 16)
    &&& no_end(d, dir, q)
}

/// Whether a record is shown, and has the short name `target`.
pub open spec fn matching(rec: Seq<u8>, target: Seq<u8>) -> bool {
    &&& rec[0] != ENTRY_FREE
    &&& rec[0] != ENTRY_DELETED
    &&& rec[0] != ENTRY_DOT
    &&& rec[11] & ATTR_VOLUME_ID == 0
    &&& rec.subrange(0, 11) == target
}

/// None of the first `p` records has the short name `target`.
pub open spec fn none_matching(d: Image, dir: Seq<int>, target: Seq<u8>, p: int) -> bool {
    forall|j: int| 0 <= j < p ==> !matching(#[trigger] record_at(d, dir, j), target)
}

/// Whether the end mark at `m` comes before any record with the short name
/// `target`.
pub open spec fn end_before(d: Image, dir: Seq<int>, target: Seq<u8>, m: int) -> bool {
    &&& 0 <= m
    &&& record_at(d, dir, m)[0] == ENTRY_FREE
    &&& no_end(d, dir, m)
    &&& none_matching(d, dir, target, m)
}

/// Whether the end mark is one of the first `p` records, and comes before any
/// with the short name `target`.
pub open spec fn ends_without(d: Image, dir: Seq<int>, target: Seq<u8>, p: int) -> bool {
    exists|m: int| m < p && #[trigger] end_before(d, dir, target, m)
}

/// What a search over the first `p` records of a directory has found.
pub(crate) open spec fn search_ok(d: Image, dir: Seq<int>, target: Seq<u8>, p: int, x: Search) -> bool {
    match x {
        Search::On(None) => no_end(d, dir, p) && none_matching(d, dir, target, p),
        Search::On(Some((lba, off))) => no_end(d, dir, p) && none_matching(d, dir, target, p) && exists|q: int|
            #![trigger record_at(d, dir, q)]
            q < p && is_slot(d, dir, lba, off, q) && record_at(d, dir, q)[0] == ENTRY_DELETED,
        Search::Hit(lba, off, e) => exists|q: int|
            #![trigger record_at(d, dir, q)]
            q < p && is_slot(d, dir, lba, off, q) && none_matching(d, dir, target, q) && match e {
                None => ends_without(d, dir, target, p) && (record_at(d, dir, q)[0] == ENTRY_FREE || record_at(
                    d,
                    dir,
                    q,
                )[0] == ENTRY_DELETED),
                Some(e) => e == entry_of(record_at(d, dir, q)) && matching(record_at(d, dir, q), target),
            },
        Search::Failed(_) => false,
    }
}

proof fn lemma_search_record(d: Image, dir: Seq<int>, target: Seq<u8>, p: int, x: Search)
    requires
        0 <= p < 16 * dir.len(),
        search_ok(d, dir, target, p, x),
    ensures
        search_ok(
            d,
            dir,
            target,
            p + 1,
            searched_record(x, target, dir[p / 16], 32 * (p % 16), record_at(d, dir, p)),
        ),
{
    let chunk = record_at(d, dir, p);
    let y = searched_record(x, target, dir[p / 16], 32 * (p % 16), chunk);
    match x {
        Search::On(spare) => {
            assert(is_slot(d, dir, dir[p / 16], 32 * (p % 16), p));
            if chunk[0] != ENTRY_FREE {
                assert(no_end(d, dir, p + 1));
            } else {
                assert(end_before(d, dir, target, p));
            }
            if let Some((lba, off)) = spare {
                let q = choose|q: int|
                    #![trigger record_at(d, dir, q)]
                    q < p && is_slot(d, dir, lba, off, q) && record_at(d, dir, q)[0] == ENTRY_DELETED;
                assert(q < p + 1 && is_slot(d, dir, lba, off, q) && record_at(d, dir, q)[0] == ENTRY_DELETED);
            }
        },
        Search::Hit(lba, off, e) => {
            if e is None {
                let m = choose|m: int| m < p && #[trigger] end_before(d, dir, target, m);
                assert(end_before(d, dir, target, m));
            }
            let q = choose|q: int|
                #![trigger record_at(d, dir, q)]
                q < p && is_slot(d, dir, lba, off, q) && none_matching(d, dir, target, q) && match e {
                    None => ends_without(d, dir, target, p) && (record_at(d, dir, q)[0] == ENTRY_FREE || record_at(
                        d,
                        dir,
                        q,
                    )[0] == ENTRY_DELETED),
                    Some(e) => e == entry_of(record_at(d, dir, q)) && matching(record_at(d, dir, q), target),
                };
            assert(q < p + 1 && is_slot(d, dir, lba, off, q));
        },
        Search::Failed(_) => {},
    }
}

pub(crate) proof fn lemma_search_records(d: Image, dir: Seq<int>, target: Seq<u8>, i: int, x: Search, k: int)
    requires
        0 <= i < dir.len(),
        0 <= k <= 16,
        search_ok(d, dir, target, 16 * i, x),
    ensures
        search_ok(
            d,
            dir,
            target,
            16 * i + k,
            searched_records(x, target, dir[i], sector(d, dir[i])->Ok_0, k),
        ),
    decreases k,
{
    if k > 0 {
        lemma_search_records(d, dir, target, i, x, k - 1);
        let p = 16 * i + k - 1;
        assert(p / 16 == i && p % 16 == k - 1);
        lemma_search_record(
            d,
            dir,
            target,
            p,
            searched_records(x, target, dir[i], sector(d, dir[i])->Ok_0, k - 1),
        );
    }
}

pub(crate) proof fn lemma_search_later(d: Image, dir: Seq<int>, target: Seq<u8>, p: int, p1: int, x: Search)
    requires
        p <= p1,
        x is Hit,
        search_ok(d, dir, target, p, x),
    ensures
        search_ok(d, dir, target, p1, x),
{
    if ends_without(d, dir, target, p) {
        let m = choose|m: int| m < p && #[trigger] end_before(d, dir, target, m);
        assert(m < p1 && end_before(d, dir, target, m));
    }
}

/// Changing part of one record leaves the other records alone.
pub(crate) proof fn lemma_replaced(d: Image, d1: Image, dir: Seq<int>, q: int, rec: Seq<u8>)
    requires
        image_ok(d),
        readable(d, dir),
        dir.no_duplicates(),
        0 <= q < 16 * dir.len(),
        rec.len() <= 32,
        forall|i: int|
            0 <= i < dir.len() ==> sector(d1, #[trigger] dir[i]) == if i == q / 16 {
                Ok::<Seq<u8>, &'static str>(splice(sector(d, dir[i])->Ok_0, 32 * (q % 16), rec))
            } else {
                sector(d, dir[i])
            },
    ensures
        forall|j: int|
            0 <= j < 16 * dir.len() && j != q ==> #[trigger] record_at(d1, dir, j) == record_at(d, dir, j),
        record_at(d1, dir, q) == splice(record_at(d, dir, q), 0, rec),
        readable(d1, dir),
{
    assert forall|j: int| 0 <= j < 16 * dir.len() implies (#[trigger] record_at(d1, dir, j)).len() == 32
        && record_at(d, dir, j).len() == 32 by {
        assert(sector(d, dir[j / 16]) is Ok);
    }
    assert forall|j: int| 0 <= j < 16 * dir.len() && j != q implies #[trigger] record_at(d1, dir, j)
        == record_at(d, dir, j) by {
        let i = j / 16;
        assert(sector(d, dir[i]) is Ok);
        if i == q / 16 {
            assert(j % 16 != q % 16);
            assert(record_at(d1, dir, j) =~= record_at(d, dir, j));
        }
    }
    let i = q / 16;
    assert(sector(d, dir[i]) is Ok);
    assert(record_at(d1, dir, q) =~= splice(record_at(d, dir, q), 0, rec));
}

/// No entry of the table links a cluster outside the data region.
pub open spec fn links_ok(d: Image, l: Layout) -> bool {
    forall|c: int|
        is_cluster(l, c) ==> (#[trigger] fat_get(d, l, c) matches Some(v) ==> in_chain(v as int) ==> is_cluster(
            l,
            v as int,
        ))
}

/// Freeing a chain changes nothing outside the tables.
pub(crate) proof fn lemma_freed(d: Image, l: Layout, c: int, left: nat)
    requires
        image_ok(d),
        proper(l),
        links_ok(d, l),
        in_chain(c) ==> is_cluster(l, c),
        freed(d, l, c, left).1 is Ok,
    ensures
        image_ok(freed(d, l, c, left).0),
        links_ok(freed(d, l, c, left).0, l),
        same_outside_fats(d, freed(d, l, c, left).0, l),
    decreases left,
{
    if in_chain(c) && left > 0 {
        let next = fat_get(d, l, c)->0;
        let d1 = fat_set(d, l, c, 0, l.num_fats as int).0;
        lemma_fat_set(d, l, c, 0, l.num_fats as int);
        assert(links_ok(d1, l)) by {
            assert forall|x: int| is_cluster(l, x) implies (#[trigger] fat_get(d1, l, x) matches Some(v)
                ==> in_chain(v as int) ==> is_cluster(l, v as int)) by {
                assert(fat_get(d1, l, x) == if x == c {
                    Some(0u16)
                } else {
                    fat_get(d, l, x)
                });
            }
        }
        lemma_freed(d1, l, next as int, (left - 1) as nat);
        let d2 = freed(d, l, c, left).0;
        assert forall|x: int| x < l.fat_start_lba || x >= l.root_dir_start_lba implies #[trigger] sector(d2, x)
            == sector(d, x) by {
            assert(sector(d1, x) == sector(d, x));
        }
    }
}

/// A name that is shown as it was given once it is stored, but for case.
pub open spec fn storable(name: Seq<u8>) -> bool {
    let short = short_name(name);
    &&& same_name(short_text(short), name)
    &&& short[0] != ENTRY_FREE
    &&& short[0] != ENTRY_DELETED
    &&& short[0] != ENTRY_DOT
}

/// Whether the record at a slot is shown under its short name, and no record
/// before it is shown under `name`.
pub open spec fn clear_slot(d: Image, dir: Seq<int>, q: int, name: Seq<u8>) -> bool {
    let x = listed_to(d, dir, q);
    x.parts.len() == 0 && first_named(x.entries, name) is None
}

pub(crate) proof fn lemma_no_attributes()
    by (bit_vector)
    ensures
        0u8 & ATTR_DIRECTORY == 0,
        0u8 & ATTR_VOLUME_ID == 0,
{
}

pub(crate) proof fn lemma_file_record(target: Seq<u8>, first: int, len: int)
    requires
        target.len() == 11,
        0 <= first < 0x1_0000,
        0 <= len < 0x1_0000_0000,
    ensures
        ({
            let rec = file_record(target, first, len);
            &&& rec.len() == 32
            &&& rec[0] == target[0]
            &&& rec[11] == 0
            &&& entry_of(rec) == (Entry {
                name: short_text(target),
                is_dir: false,
                size: len as u32,
                cluster: first as u32,
            })
        }),
{
    let rec = file_record(target, first, len);
    lemma_no_attributes();
    assert(rec.subrange(0, 11) =~= target);
    assert(rec.subrange(26, 28) =~= bytes16(first as u16));
    lemma_le16_of_bytes16(rec, 26, first as u16);
    assert(rec.subrange(28, 32) =~= bytes32(len as u32));
    lemma_le32_of_bytes32(rec, 28, len as u32);
}

pub(crate) proof fn lemma_last_index(s: Seq<u8>, b: u8)
    ensures
        match last_index(s, b) {
            Some(i) => 0 <= i < s.len() && s[i] == b && forall|j: int| i < j < s.len() ==> s[j] != b,
            None => forall|j: int| 0 <= j < s.len() ==> s[j] != b,
        },
    decreases s.len(),
{
    if s.len() > 0 && s.last() != b {
        lemma_last_index(s.drop_last(), b);
        let t = s.drop_last();
        assert(forall|j: int| 0 <= j < t.len() ==> t[j] == s[j]);
    }
}

/// A name that can be stored is neither `.` nor `..`.
pub(crate) proof fn lemma_storable_not_dots(name: Seq<u8>)
    requires
        storable(name),
    ensures
        name != seq![0x2Eu8],
        name != seq![0x2Eu8, 0x2Eu8],
{
    let short = short_name(name);
    lemma_last_index(name, 0x2E);
    if name == seq![0x2Eu8] {
        assert(name[0] == 0x2E);
        assert(last_index(name, 0x2E) == Some(0int));
        let base = short.subrange(0, 8);
        let ext = short.subrange(8, 11);
        assert(forall|i: int| 0 <= i < 11 ==> short[i] == 0x20);
        lemma_trimmed_spaces(base);
        lemma_trimmed_spaces(ext);
        assert(short_text(short) =~= Seq::empty());
        assert(false);
    }
    if name == seq![0x2Eu8, 0x2Eu8] {
        assert(name[0] == 0x2E && name[1] == 0x2E);
        assert(last_index(name, 0x2E) == Some(1int));
        assert(short[0] == name.take(1)[0]);
    }
}

proof fn lemma_trimmed_spaces(s: Seq<u8>)
    requires
        forall|i: int| 0 <= i < s.len() ==> s[i] == 0x20,
    ensures
        trimmed(s).len() == 0,
    decreases s.len(),
{
    if s.len() > 0 {
        lemma_trimmed_spaces(s.drop_last());
    }
}

/// Two listings that differ by one entry go on differing by it.
pub(crate) proof fn lemma_listed_without(d: Image, d1: Image, dir: Seq<int>, q: int, i: int, p: int)
    requires
        0 <= q < p,
        forall|j: int| q < j < p ==> #[trigger] record_at(d1, dir, j) == record_at(d, dir, j),
        listed_to(d, dir, q + 1).parts == listed_to(d1, dir, q + 1).parts,
        listed_to(d, dir, q + 1).done == listed_to(d1, dir, q + 1).done,
        0 <= i < listed_to(d, dir, q + 1).entries.len(),
        listed_to(d1, dir, q + 1).entries == listed_to(d, dir, q + 1).entries.remove(i),
    ensures
        listed_to(d, dir, p).parts == listed_to(d1, dir, p).parts,
        listed_to(d, dir, p).done == listed_to(d1, dir, p).done,
        0 <= i < listed_to(d, dir, p).entries.len(),
        listed_to(d1, dir, p).entries == listed_to(d, dir, p).entries.remove(i),
    decreases p,
{
    if q + 1 < p {
        lemma_listed_without(d, d1, dir, q, i, p - 1);
        assert(record_at(d1, dir, p - 1) == record_at(d, dir, p - 1));
        let a = listed_to(d, dir, p - 1).entries;
        let b = listed_to(d, dir, p).entries;
        assert(listed_to(d1, dir, p).entries =~= b.remove(i));
    }
}

pub(crate) proof fn lemma_lfn_is_volume(a: u8)
    by (bit_vector)
    requires
        a & ATTR_VOLUME_ID == 0,
    ensures
        a != ATTR_LFN,
{
}

pub(crate) proof fn lemma_none_named(entries: Seq<Entry>, name: Seq<u8>)
    requires
        forall|j: int| 0 <= j < entries.len() ==> !same_name((#[trigger] entries[j]).name, name),
    ensures
        first_named(entries, name) is None,
    decreases entries.len(),
{
    if entries.len() > 0 {
        assert(!same_name(entries[0].name, name));
        lemma_none_named(entries.drop_first(), name);
    }
}

// ---- The copies of the table ----

/// Sector `w` of copy `j` of the table.
pub open spec fn copy_sector(l: Layout, j: int, w: int) -> int {
    l.fat_start_lba + j * l.fat_sectors + w
}

/// Every copy of the table is the same.
pub open spec fn mirrored(d: Image, l: Layout) -> bool {
    forall|j: int, w: int|
        0 <= j < l.num_fats && 0 <= w < l.fat_sectors ==> sector(d, #[trigger] copy_sector(l, j, w)) == sector(
            d,
            copy_sector(l, 0, w),
        )
}

proof fn lemma_copies_apart(l: Layout, j: int, w: int, k: int, u: int)
    requires
        0 <= w < l.fat_sectors,
        0 <= u < l.fat_sectors,
        copy_sector(l, j, w) == copy_sector(l, k, u),
    ensures
        j == k && w == u,
{
    let f = l.fat_sectors as int;
    assert(j == k) by (nonlinear_arith)
        requires
            j * f + w == k * f + u,
            0 <= w < f,
            0 <= u < f,
    ;
}

proof fn lemma_fat_set_copies(d: Image, l: Layout, c: int, v: u16, k: int, j: int, w: int)
    requires
        proper(l),
        0 <= c < l.clusters() + 2,
        0 <= k <= l.num_fats,
        fat_set(d, l, c, v, k).1 is Ok,
        0 <= j < l.num_fats,
        0 <= w < l.fat_sectors,
    ensures
        sector(fat_set(d, l, c, v, k).0, copy_sector(l, j, w)) == if j < k && w == c * 2 / 512 {
            Ok::<Seq<u8>, &'static str>(with16(sector(d, copy_sector(l, j, w))->Ok_0, c * 2 % 512, v))
        } else {
            sector(d, copy_sector(l, j, w))
        },
        j < k && w == c * 2 / 512 ==> sector(d, copy_sector(l, j, w)) is Ok,
    decreases k,
{
    if k > 0 {
        lemma_fat_set_copies(d, l, c, v, k - 1, j, w);
        lemma_entry_sector(l, c);
        lemma_copy_place(l, k - 1, c * 2 / 512);
        let lba = copy_sector(l, k - 1, c * 2 / 512);
        if lba == copy_sector(l, j, w) {
            lemma_copies_apart(l, j, w, k - 1, c * 2 / 512);
        }
    }
}

/// Storing a table entry keeps the copies of the table the same.
pub proof fn law_copies_in_step(d: Image, l: Layout, c: int, v: u16)
    requires
        proper(l),
        0 <= c < l.clusters() + 2,
        mirrored(d, l),
        fat_set(d, l, c, v, l.num_fats as int).1 is Ok,
    ensures
        mirrored(fat_set(d, l, c, v, l.num_fats as int).0, l),
{
    let d1 = fat_set(d, l, c, v, l.num_fats as int).0;
    assert forall|j: int, w: int| 0 <= j < l.num_fats && 0 <= w < l.fat_sectors implies sector(
        d1,
        #[trigger] copy_sector(l, j, w),
    ) == sector(d1, copy_sector(l, 0, w)) by {
        lemma_fat_set_copies(d, l, c, v, l.num_fats as int, j, w);
        lemma_fat_set_copies(d, l, c, v, l.num_fats as int, 0, w);
    }
}

pub(crate) proof fn lemma_mirrored_same(d: Image, d1: Image, l: Layout)
    requires
        proper(l),
        mirrored(d, l),
        forall|x: int|
            l.fat_start_lba <= x < l.root_dir_start_lba ==> #[trigger] sector(d1, x) == sector(d, x),
    ensures
        mirrored(d1, l),
{
    assert forall|j: int, w: int| 0 <= j < l.num_fats && 0 <= w < l.fat_sectors implies sector(
        d1,
        #[trigger] copy_sector(l, j, w),
    ) == sector(d1, copy_sector(l, 0, w)) by {
        lemma_copy_place(l, j, w);
        lemma_copy_place(l, 0, w);
        assert(sector(d1, copy_sector(l, j, w)) == sector(d, copy_sector(l, j, w)));
        assert(sector(d1, copy_sector(l, 0, w)) == sector(d, copy_sector(l, 0, w)));
    }
}

pub(crate) proof fn lemma_freed_mirrored(d: Image, l: Layout, c: int, left: nat)
    requires
        image_ok(d),
        proper(l),
        links_ok(d, l),
        mirrored(d, l),
        in_chain(c) ==> is_cluster(l, c),
        freed(d, l, c, left).1 is Ok,
    ensures
        mirrored(freed(d, l, c, left).0, l),
    decreases left,
{
    if in_chain(c) && left > 0 {
        let next = fat_get(d, l, c)->0;
        let d1 = fat_set(d, l, c, 0, l.num_fats as int).0;
        lemma_fat_set(d, l, c, 0, l.num_fats as int);
        law_copies_in_step(d, l, c, 0);
        assert(links_ok(d1, l)) by {
            assert forall|x: int| is_cluster(l, x) implies (#[trigger] fat_get(d1, l, x) matches Some(v)
                ==> in_chain(v as int) ==> is_cluster(l, v as int)) by {
                assert(fat_get(d1, l, x) == if x == c {
                    Some(0u16)
                } else {
                    fat_get(d, l, x)
                });
            }
        }
        lemma_freed_mirrored(d1, l, next as int, (left - 1) as nat);
    }
}

pub(crate) proof fn lemma_stored_mirrored(d: Image, l: Layout, data: Seq<u8>, off: int, prev: Option<int>, first: int)
    requires
        image_ok(d),
        proper(l),
        mirrored(d, l),
        0 <= off <= data.len(),
        prev matches Some(p) ==> is_cluster(l, p) && fat_get(d, l, p) != Some(0u16),
        stored(d, l, data, off, prev, first).1 is Ok,
    ensures
        mirrored(stored(d, l, data, off, prev, first).0, l),
    decreases data.len() - off,
{
    if off < data.len() {
        lemma_first_step(d, l, data, off, prev, first);
        let (d3, c) = first_step(d, l, data, off, prev);
        law_allocate(d, l);
        let d1 = allocated(d, l).0;
        law_copies_in_step(d, l, c, 0xFFFF);
        let d2 = match prev {
            Some(p) => fat_set(d1, l, p, (c % 0x1_0000) as u16, l.num_fats as int).0,
            None => d1,
        };
        if let Some(p) = prev {
            law_copies_in_step(d1, l, p, (c % 0x1_0000) as u16);
            lemma_fat_set(d1, l, p, (c % 0x1_0000) as u16, l.num_fats as int);
        }
        lemma_cluster_in_data(l, c);
        lemma_write_run(d2, cluster_lba(l, c), data, off, l.sectors_per_cluster as int);
        lemma_mirrored_same(d2, d3, l);
        lemma_stored_mirrored(
            d3,
            l,
            data,
            min(off + l.sectors_per_cluster * 512, data.len() as int),
            Some(c),
            if first == 0 {
                c
            } else {
                first
            },
        );
    }
}

// ---- Partial reads ----

/// The file's remembered cluster is the one at its remembered position.
pub open spec fn cursor_ok(d: Image, l: Layout, f: File) -> bool {
    advanced(d, l, f.first as int, f.cursor_index as int) == Ok::<int, &'static str>(f.cursor_cluster as int)
}

/// The file as it was when it was opened.
pub open spec fn rewound(f: File) -> File {
    File { cursor_cluster: f.first, cursor_index: 0, ..f }
}

proof fn lemma_advanced_more(d: Image, l: Layout, c: int, n: int, m: int)
    requires
        0 <= n,
        0 <= m,
        advanced(d, l, c, n) is Ok,
    ensures
        advanced(d, l, c, n + m) == advanced(d, l, advanced(d, l, c, n)->Ok_0, m),
    decreases m,
{
    if m > 0 {
        lemma_advanced_more(d, l, c, n, m - 1);
    }
}

/// What is read does not depend on the remembered cluster, and what is
/// remembered afterwards is right again.
proof fn lemma_run_cursor(
    d: Image,
    l: Layout,
    f: File,
    g: File,
    out: Seq<u8>,
    c: int,
    index: int,
    within: int,
    done: int,
    want: int,
)
    requires
        0 <= within,
        0 <= index,
        l.clusters() <= 0xFFFF_FFFF,
        f.first == g.first,
        f.size == g.size,
        cursor_ok(d, l, f),
        advanced(d, l, f.first as int, index) == Ok::<int, &'static str>(c),
    ensures
        ({
            let a = read_run(d, l, f, out, c, index, within, done, want);
            let b = read_run(d, l, g, out, c, index, within, done, want);
            a.1 == b.1 && a.2 == b.2 && cursor_ok(d, l, a.0) && a.0.first == f.first && a.0.size == f.size
        }),
    decreases want - done,
{
    if done < want && valid_cluster(l, c) && index < l.clusters() {
        let f1 = File { cursor_cluster: c as u32, cursor_index: index as u32, ..f };
        let g1 = File { cursor_cluster: c as u32, cursor_index: index as u32, ..g };
        if let Ok(s) = sector(d, cluster_lba(l, c) + within / 512) {
            let lo = within % 512;
            let n = min(512 - lo, want - done);
            let out1 = splice(out, done, s.subrange(lo, lo + n));
            if within + n == l.sectors_per_cluster * 512 && done + n < want {
                if let Ok(next) = next_cluster(d, l, c) {
                    assert(advanced(d, l, f.first as int, index + 1) == Ok::<int, &'static str>(next));
                    lemma_run_cursor(d, l, f1, g1, out1, next, index + 1, 0, done + n, want);
                }
            } else {
                lemma_run_cursor(d, l, f1, g1, out1, c, index, within + n, done + n, want);
            }
        }
    }
}

/// The remembered cluster of an open file is only a shortcut: reading gives
/// the same bytes and the same result as if the chain were followed from its
/// start, and what is remembered stays right.
pub proof fn law_cursor_is_shortcut(d: Image, l: Layout, f: File, offset: int, out: Seq<u8>)
    requires
        l.wf(),
        0 <= offset,
        cursor_ok(d, l, f),
    ensures
        read_from(d, Some(l), f, offset, out).1 == read_from(d, Some(l), rewound(f), offset, out).1,
        read_from(d, Some(l), f, offset, out).2 == read_from(d, Some(l), rewound(f), offset, out).2,
        cursor_ok(d, l, read_from(d, Some(l), f, offset, out).0),
        rewound(read_from(d, Some(l), f, offset, out).0) == rewound(f),
{
    let g = rewound(f);
    let per = l.sectors_per_cluster * 512;
    let target = offset / per;
    if offset < f.size && out.len() > 0 && l.sectors_per_cluster > 0 && l.total_sectors >= l.data_start_lba
        && target < l.clusters() {
        assert(0 <= target) by (nonlinear_arith)
            requires
                0 <= offset,
                per > 0,
                target == offset / per,
        ;
        assert(0 <= offset % per);
        assert(l.clusters() <= 0xFFFF_FFFF) by (nonlinear_arith)
            requires
                l.sectors_per_cluster > 0,
                l.total_sectors >= l.data_start_lba,
        ;
        if target >= f.cursor_index {
            lemma_advanced_more(d, l, f.first as int, f.cursor_index as int, target - f.cursor_index);
        }
        if let Ok(x) = advanced(d, l, f.first as int, target) {
            let want = min(out.len() as int, f.size - offset);
            lemma_run_cursor(d, l, f, g, out, x, target, offset % per, 0, want);
        }
    }
}

/// The cluster `i` places after `c`, an unreadable table ending the chain.
pub open spec fn nth_cluster(d: Image, l: Layout, c: int, i: int) -> int
    decreases i,
{
    if i <= 0 {
        c
    } else {
        next_or_end(d, l, nth_cluster(d, l, c, i - 1))
    }
}

/// Byte `b` of cluster `c`.
pub open spec fn byte_of(d: Image, l: Layout, c: int, b: int) -> u8 {
    (sector(d, cluster_lba(l, c) + b / 512)->Ok_0)[b % 512]
}

/// Byte `p` of the file whose chain starts at `c`.
pub open spec fn file_byte(d: Image, l: Layout, c: int, p: int) -> u8 {
    let per = l.sectors_per_cluster * 512;
    byte_of(d, l, nth_cluster(d, l, c, p / per), p % per)
}

proof fn lemma_nth_more(d: Image, l: Layout, c: int, n: int, m: int)
    requires
        0 <= n,
        0 <= m,
    ensures
        nth_cluster(d, l, c, n + m) == nth_cluster(d, l, nth_cluster(d, l, c, n), m),
    decreases m,
{
    if m > 0 {
        lemma_nth_more(d, l, c, n, m - 1);
    }
}

proof fn lemma_advanced_nth(d: Image, l: Layout, c: int, n: int)
    requires
        0 <= n,
        advanced(d, l, c, n) is Ok,
    ensures
        advanced(d, l, c, n)->Ok_0 == nth_cluster(d, l, c, n),
    decreases n,
{
    if n > 0 {
        lemma_advanced_nth(d, l, c, n - 1);
    }
}

pub(crate) proof fn lemma_read_sectors_bytes(d: Image, lba: int, n: int, size: int, data: Seq<u8>)
    requires
        image_ok(d),
        0 <= n,
        data.len() < size,
        read_sectors(d, lba, n, size, data) is Ok,
    ensures
        ({
            let more = read_sectors(d, lba, n, size, data)->Ok_0;
            &&& more.len() == min(data.len() + 512 * n, size)
            &&& more.take(data.len() as int) == data
            &&& forall|b: int|
                0 <= b < more.len() - data.len() ==> #[trigger] more[data.len() + b] == (sector(
                    d,
                    lba + b / 512,
                )->Ok_0)[b % 512]
        }),
    decreases n,
{
    if n > 0 {
        let s = sector(d, lba)->Ok_0;
        let k = min(size - data.len(), 512);
        let next = data + s.take(k);
        let more = read_sectors(d, lba, n, size, data)->Ok_0;
        if next.len() < size {
            lemma_read_sectors_bytes(d, lba + 1, n - 1, size, next);
            assert(more.take(data.len() as int) =~= more.take(next.len() as int).take(data.len() as int));
            assert(next.take(data.len() as int) =~= data);
            assert forall|b: int| 0 <= b < more.len() - data.len() implies #[trigger] more[data.len() + b] == (
            sector(d, lba + b / 512)->Ok_0)[b % 512] by {
                if b < 512 {
                    assert(more[data.len() + b] == more.take(next.len() as int)[data.len() + b]);
                } else {
                    let a = b - 512;
                    assert(more[next.len() + a] == (sector(d, lba + 1 + a / 512)->Ok_0)[a % 512]);
                    assert(b / 512 == a / 512 + 1 && b % 512 == a % 512);
                }
            }
        } else {
            assert(next.take(data.len() as int) =~= data);
        }
    } else {
        assert(data.take(data.len() as int) =~= data);
    }
}

pub(crate) proof fn lemma_div_mod(p: int, i: int, r: int, per: int)
    requires
        per > 0,
        p == i * per + r,
        0 <= r < per,
    ensures
        p / per == i,
        p % per == r,
{
    vstd::arithmetic::div_mod::lemma_fundamental_div_mod_converse(p, per, i, r);
}

/// What reading a chain from its `k`th cluster on gives, byte by byte.
pub(crate) proof fn lemma_read_chain_bytes(d: Image, l: Layout, first: int, k: int, size: int, data: Seq<u8>, left: nat)
    requires
        image_ok(d),
        l.sectors_per_cluster > 0,
        0 <= k,
        data.len() == k * (l.sectors_per_cluster * 512) || data.len() >= size,
        data.len() <= size,
        forall|p: int| 0 <= p < data.len() ==> #[trigger] data[p] == file_byte(d, l, first, p),
        read_chain(d, l, nth_cluster(d, l, first, k), size, data, left) is Ok,
    ensures
        ({
            let all = read_chain(d, l, nth_cluster(d, l, first, k), size, data, left)->Ok_0;
            forall|p: int| 0 <= p < all.len() ==> #[trigger] all[p] == file_byte(d, l, first, p)
        }),
    decreases left,
{
    let c = nth_cluster(d, l, first, k);
    let per = l.sectors_per_cluster * 512;
    if in_chain(c) && data.len() < size && left > 0 {
        let lba = cluster_lba(l, c);
        let n = l.sectors_per_cluster as int;
        lemma_read_sectors_bytes(d, lba, n, size, data);
        let more = read_sectors(d, lba, n, size, data)->Ok_0;
        lemma_mul_step(k, per);
        assert forall|p: int| 0 <= p < more.len() implies #[trigger] more[p] == file_byte(d, l, first, p) by {
            if p < data.len() {
                assert(more[p] == more.take(data.len() as int)[p]);
            } else {
                let b = p - data.len();
                assert(more[data.len() + b] == (sector(d, lba + b / 512)->Ok_0)[b % 512]);
                lemma_div_mod(p, k, b, per);
            }
        }
        lemma_read_chain_bytes(d, l, first, k + 1, size, more, (left - 1) as nat);
    }
}

/// What a partial read puts into its buffer, byte by byte.
proof fn lemma_run_bytes(
    d: Image,
    l: Layout,
    f: File,
    out: Seq<u8>,
    first: int,
    index: int,
    within: int,
    done: int,
    want: int,
    start: int,
)
    requires
        image_ok(d),
        l.sectors_per_cluster > 0,
        0 <= index,
        0 <= done <= want <= out.len(),
        0 <= within < l.sectors_per_cluster * 512 || done == want,
        start + done == index * (l.sectors_per_cluster * 512) + within,
        forall|k: int| 0 <= k < done ==> #[trigger] out[k] == file_byte(d, l, first, start + k),
        read_run(d, l, f, out, nth_cluster(d, l, first, index), index, within, done, want).2 is Ok,
    ensures
        ({
            let r = read_run(d, l, f, out, nth_cluster(d, l, first, index), index, within, done, want);
            &&& r.1.len() == out.len()
            &&& forall|k: int| 0 <= k < want ==> #[trigger] r.1[k] == file_byte(d, l, first, start + k)
        }),
    decreases want - done,
{
    let c = nth_cluster(d, l, first, index);
    let per = l.sectors_per_cluster * 512;
    if done < want {
        let f1 = File { cursor_cluster: c as u32, cursor_index: index as u32, ..f };
        let s = sector(d, cluster_lba(l, c) + within / 512)->Ok_0;
        let lo = within % 512;
        let n = min(512 - lo, want - done);
        let out1 = splice(out, done, s.subrange(lo, lo + n));
        assert(within / 512 < l.sectors_per_cluster);
        assert forall|k: int| 0 <= k < done + n implies #[trigger] out1[k] == file_byte(
            d,
            l,
            first,
            start + k,
        ) by {
            if k >= done {
                let b = within + k - done;
                assert(b / 512 == within / 512 && b % 512 == lo + k - done);
                lemma_div_mod(start + k, index, b, per);
            } else {
                assert(out1[k] == out[k]);
            }
        }
        if within + n == per && done + n < want {
            let next = next_cluster(d, l, c)->Ok_0;
            assert(nth_cluster(d, l, first, index + 1) == next);
            lemma_mul_step(index, per);
            lemma_run_bytes(d, l, f1, out1, first, index + 1, 0, done + n, want, start);
        } else {
            lemma_run_bytes(d, l, f1, out1, first, index, within + n, done + n, want, start);
        }
    }
}

/// A partial read gives the same bytes as reading the whole file and cutting
/// the range out of it, whenever both succeed.
pub proof fn law_range_is_part(v: Volume, at: Place, path: Seq<u8>, offset: int, len: int)
    requires
        image_ok(v.image),
        v.layout matches Some(l) ==> l.wf(),
        0 <= offset,
        0 <= len,
        content(v, at, path) matches Ok(data) && file_entry(v, at, path) matches Ok(e) && data.len() == e.size,
        content_range(v, at, path, offset, len) is Ok,
    ensures
        ({
            let data = content(v, at, path)->Ok_0;
            content_range(v, at, path, offset, len) == Ok::<Seq<u8>, &'static str>(
                if offset < data.len() {
                    data.subrange(offset, offset + min(len, data.len() - offset))
                } else {
                    Seq::empty()
                },
            )
        }),
{
    let data = content(v, at, path)->Ok_0;
    let e = file_entry(v, at, path)->Ok_0;
    let l = v.layout->0;
    let d = v.image;
    let n = if offset < e.size {
        min(len, e.size - offset)
    } else {
        0
    };
    let zeros = Seq::new(n as nat, |i: int| 0u8);
    let r = read_from(d, v.layout, opened(e), offset, zeros);
    if offset < e.size && n > 0 {
        let per = l.sectors_per_cluster * 512;
        let target = offset / per;
        assert(0 <= target) by (nonlinear_arith)
            requires
                0 <= offset,
                per > 0,
                target == offset / per,
        ;
        lemma_mul_step(0, per);
        lemma_read_chain_bytes(d, l, e.cluster as int, 0, e.size as int, Seq::empty(), chain_budget(e.size as int));
        lemma_advanced_nth(d, l, e.cluster as int, target);
        vstd::arithmetic::div_mod::lemma_fundamental_div_mod(offset, per);
        assert(target * per == per * target) by (nonlinear_arith);
        lemma_run_bytes(
            d,
            l,
            opened(e),
            zeros,
            e.cluster as int,
            target,
            offset % per,
            0,
            n,
            offset,
        );
        assert(r.1 =~= data.subrange(offset, offset + n));
    } else {
        assert(r.1 =~= if offset < data.len() {
            data.subrange(offset, offset + n)
        } else {
            Seq::empty()
        });
    }
}

// ---- Names ----

/// What precedes the last dot of a name; all of it if there is none.
pub open spec fn name_base(name: Seq<u8>) -> Seq<u8> {
    match last_index(name, 0x2E) {
        Some(i) => name.take(i),
        None => name,
    }
}

/// What follows the last dot of a name.
pub open spec fn name_ext(name: Seq<u8>) -> Seq<u8> {
    match last_index(name, 0x2E) {
        Some(i) => name.skip(i + 1),
        None => Seq::empty(),
    }
}

/// A plain 8.3 name: up to eight characters, and up to three more after a dot
/// if there is one, all printable ASCII and none a space or another dot.
pub open spec fn plain_name(name: Seq<u8>) -> bool {
    &&& 0 < name_base(name).len() <= 8
    &&& name_ext(name).len() <= 3
    &&& last_index(name, 0x2E) is Some ==> name_ext(name).len() > 0
    &&& forall|i: int|
        0 <= i < name_base(name).len() ==> 0x20 < (#[trigger] name_base(name)[i]) < 0x7F && name_base(name)[i]
            != 0x2E
    &&& forall|i: int| 0 <= i < name_ext(name).len() ==> 0x20 < (#[trigger] name_ext(name)[i]) < 0x7F
}

proof fn lemma_latin_ascii(s: Seq<u8>)
    requires
        forall|i: int| 0 <= i < s.len() ==> (#[trigger] s[i]) < 0x80,
    ensures
        latin(s) == s,
    decreases s.len(),
{
    if s.len() > 0 {
        lemma_latin_ascii(s.drop_last());
        assert(utf8(s.last() as u16) =~= seq![s.last()]);
        assert(latin(s) =~= s);
    } else {
        assert(latin(s) =~= s);
    }
}

proof fn lemma_trimmed(s: Seq<u8>, n: int)
    requires
        0 <= n <= s.len(),
        forall|i: int| n <= i < s.len() ==> (#[trigger] s[i]) == 0x20,
        n > 0 ==> s[n - 1] != 0x20,
    ensures
        trimmed(s) == s.take(n),
    decreases s.len(),
{
    if s.len() > n {
        lemma_trimmed(s.drop_last(), n);
        assert(s.drop_last().take(n) =~= s.take(n));
    } else {
        assert(s.take(n) =~= s);
    }
}

/// Every plain 8.3 name is shown as it was given once it is stored, but for
/// the case of its letters.
pub proof fn law_plain_names_are_storable(name: Seq<u8>)
    requires
        plain_name(name),
    ensures
        storable(name),
{
    lemma_last_index(name, 0x2E);
    let base = name_base(name);
    let ext = name_ext(name);
    let short = short_name(name);
    let a = short.subrange(0, 8);
    let b = short.subrange(8, 11);
    assert forall|i: int| 0 <= i < base.len() implies #[trigger] a[i] == upper(base[i]) && 0x20 < a[i]
        < 0x7F by {
        assert(a[i] == short[i]);
        assert(0x20 < name_base(name)[i] < 0x7F);
    }
    assert forall|i: int| 0 <= i < ext.len() implies #[trigger] b[i] == upper(ext[i]) && 0x20 < b[i] < 0x7F by {
        assert(b[i] == short[8 + i]);
        assert(0x20 < name_ext(name)[i] < 0x7F);
    }
    assert(a[base.len() - 1] == upper(base[base.len() - 1]));
    if ext.len() > 0 {
        assert(b[ext.len() - 1] == upper(ext[ext.len() - 1]));
    }
    lemma_trimmed(a, base.len() as int);
    lemma_trimmed(b, ext.len() as int);
    let ta = trimmed(a);
    let tb = trimmed(b);
    assert forall|i: int| 0 <= i < ta.len() implies (#[trigger] ta[i]) < 0x80 by {
        assert(ta[i] == a[i]);
    }
    assert forall|i: int| 0 <= i < tb.len() implies (#[trigger] tb[i]) < 0x80 by {
        assert(tb[i] == b[i]);
    }
    lemma_latin_ascii(ta);
    lemma_latin_ascii(tb);
    let text = short_text(short);
    assert forall|i: int| 0 <= i < text.len() implies upper(#[trigger] text[i]) == upper(name[i]) by {
        if i < base.len() {
            assert(text[i] == ta[i]);
            assert(name[i] == base[i]);
        } else if i > base.len() {
            assert(text[i] == tb[i - base.len() - 1]);
            assert(name[i] == ext[i - base.len() - 1]);
        }
    }
    assert(short[0] == upper(base[0]));
}

} // verus!
