//! What holds of writing files in any directory of a volume.
use crate::fat16_laws::{
    clear_slot, cluster_sector, end_before, ends_without, filled, holds, in_cluster, is_cluster, is_slot,
    law_plain_names_are_storable, lemma_cluster_in_data, lemma_clusters_apart, lemma_div_mod, lemma_done_stays,
    lemma_fat_get_same, lemma_fat_set, lemma_file_record, lemma_first_named, lemma_freed_mirrored, lemma_last_index,
    lemma_lfn_is_volume, lemma_listed_grows, lemma_listed_same, lemma_listed_without, lemma_listing,
    lemma_mirrored_same, lemma_mul_step, lemma_no_attributes, lemma_none_named, lemma_not_done, lemma_read_back,
    lemma_replaced, lemma_search_later, lemma_search_records, lemma_storable_not_dots, lemma_stored,
    lemma_stored_mirrored, link_after, linked_up, links_ok, listed_to, matching, mirrored, no_end, none_matching,
    plain_name, proper, readable, record_at, search_ok, storable, stored_clusters,
};
use crate::volume::{
    allocated, block, chain_budget, chain_sectors, cluster_lba, components, content, dir_sectors, entry_content,
    entry_of, extended, fat_get, fat_set, file_record, first_named, found, freed, image_ok, in_chain, last_index,
    lemma_until_slash, listed_sectors, listing, min, next_or_end, parent_and_name, read_chain, read_sectors,
    record_stored, removed, resolved, root_place, run, same_name, saved, saved_at, searched_chain, searched_sectors,
    sector, short_name, short_text, slot_for, splice, status, stepped, stepped_all, stored, until_slash, upper,
    walked, write_run, DirLocation, Entry, Image, Layout, Listing, Place, Search, Volume, ATTR_LFN, ATTR_VOLUME_ID,
    ENTRY_DELETED, ENTRY_DOT, ENTRY_FREE, MAX_CHAIN,
};
use vstd::prelude::*;

verus! {

/// The clusters of the chain that starts at `c`, in order.
pub open spec fn chain_clusters(d: Image, l: Layout, c: int, left: nat) -> Seq<int>
    decreases left,
{
    if !in_chain(c) || left == 0 {
        Seq::empty()
    } else {
        seq![c] + chain_clusters(d, l, next_or_end(d, l, c), (left - 1) as nat)
    }
}

/// The entry of cluster `i` of a chain: that it is used, and links the next
/// one or ends the chain.
pub open spec fn linked_at(d: Image, l: Layout, cs: Seq<int>, i: int) -> bool {
    fat_get(d, l, cs[i]) matches Some(v) && v != 0 && if i + 1 < cs.len() {
        v as int == cs[i + 1]
    } else {
        !in_chain(v as int)
    }
}

/// The clusters `cs` are a chain with an end, and without a loop.
pub open spec fn whole(d: Image, l: Layout, cs: Seq<int>) -> bool {
    &&& cs.no_duplicates()
    &&& 0 < cs.len()
    &&& forall|i: int| 0 <= i < cs.len() ==> is_cluster(l, #[trigger] cs[i])
    &&& forall|i: int| 0 <= i < cs.len() ==> #[trigger] linked_at(d, l, cs, i)
}

/// The sectors of the clusters `cs`, in order.
pub open spec fn spread(l: Layout, cs: Seq<int>) -> Seq<int> {
    Seq::new(
        (l.sectors_per_cluster * cs.len()) as nat,
        |k: int| cluster_lba(l, cs[k / (l.sectors_per_cluster as int)]) + k % (l.sectors_per_cluster as int),
    )
}

pub(crate) proof fn lemma_spread_at(l: Layout, cs: Seq<int>, i: int, k: int)
    requires
        l.sectors_per_cluster > 0,
        0 <= i < cs.len(),
        0 <= k < l.sectors_per_cluster,
    ensures
        0 <= i * l.sectors_per_cluster + k < spread(l, cs).len(),
        spread(l, cs)[i * l.sectors_per_cluster + k] == cluster_lba(l, cs[i]) + k,
{
    let n = l.sectors_per_cluster as int;
    lemma_div_mod(i * n + k, i, k, n);
    assert(0 <= i * n && i * n + n <= n * cs.len()) by (nonlinear_arith)
        requires
            0 <= i < cs.len(),
            n > 0,
    ;
}

/// Where a sector of a chain stands in it.
proof fn lemma_spread_index(l: Layout, cs: Seq<int>, p: int)
    requires
        l.sectors_per_cluster > 0,
        0 <= p < spread(l, cs).len(),
    ensures
        0 <= p / (l.sectors_per_cluster as int) < cs.len(),
        0 <= p % (l.sectors_per_cluster as int) < l.sectors_per_cluster,
        p == p / (l.sectors_per_cluster as int) * l.sectors_per_cluster + p % (l.sectors_per_cluster as int),
        in_cluster(l, cs[p / (l.sectors_per_cluster as int)], spread(l, cs)[p]),
{
    let n = l.sectors_per_cluster as int;
    vstd::arithmetic::div_mod::lemma_fundamental_div_mod(p, n);
    assert(n * (p / n) == p / n * n) by (nonlinear_arith);
    assert(0 <= p / n < cs.len()) by (nonlinear_arith)
        requires
            0 <= p < n * cs.len(),
            n > 0,
    ;
}

proof fn lemma_spread_distinct(l: Layout, cs: Seq<int>)
    requires
        l.wf(),
        l.sectors_per_cluster > 0,
        cs.no_duplicates(),
    ensures
        spread(l, cs).no_duplicates(),
{
    let s = spread(l, cs);
    let n = l.sectors_per_cluster as int;
    assert forall|p: int, q: int| 0 <= p < s.len() && 0 <= q < s.len() && p != q implies s[p] != s[q] by {
        lemma_spread_index(l, cs, p);
        lemma_spread_index(l, cs, q);
        if s[p] == s[q] {
            lemma_clusters_apart(l, cs[p / n], cs[q / n], s[p]);
            assert(p / n == q / n);
        }
    }
}

proof fn lemma_spread_first(l: Layout, cs: Seq<int>)
    requires
        l.sectors_per_cluster > 0,
        cs.len() > 0,
    ensures
        spread(l, cs) == run(cluster_lba(l, cs[0]), l.sectors_per_cluster as int) + spread(l, cs.drop_first()),
{
    let n = l.sectors_per_cluster as int;
    let a = spread(l, cs);
    let b = run(cluster_lba(l, cs[0]), n) + spread(l, cs.drop_first());
    assert(n * cs.len() == n + n * (cs.len() - 1)) by (nonlinear_arith);
    assert(a.len() == b.len());
    assert forall|p: int| 0 <= p < a.len() implies a[p] == b[p] by {
        lemma_spread_index(l, cs, p);
        let i = p / n;
        let k = p % n;
        lemma_spread_at(l, cs, i, k);
        if i == 0 {
            assert(0 * n == 0);
        } else {
            assert(i * n >= n) by (nonlinear_arith)
                requires
                    i >= 1,
                    n > 0,
            ;
            assert((i - 1) * n == i * n - n) by (nonlinear_arith);
            lemma_spread_at(l, cs.drop_first(), i - 1, k);
            assert(cs.drop_first()[i - 1] == cs[i]);
        }
    }
    assert(a =~= b);
}

/// A chain's clusters are what following it gives.
proof fn lemma_chain(d: Image, l: Layout, cs: Seq<int>, i: int, left: nat)
    requires
        proper(l),
        whole(d, l, cs),
        0 <= i < cs.len(),
        left >= cs.len() - i,
    ensures
        chain_clusters(d, l, cs[i], left) == cs.skip(i),
        chain_sectors(d, l, cs[i], left) == spread(l, cs.skip(i)),
    decreases cs.len() - i,
{
    assert(is_cluster(l, cs[i]));
    assert(linked_at(d, l, cs, i));
    let rest = cs.skip(i);
    lemma_spread_first(l, rest);
    assert(rest.drop_first() =~= cs.skip(i + 1));
    assert(rest =~= seq![cs[i]] + cs.skip(i + 1));
    if i + 1 < cs.len() {
        lemma_chain(d, l, cs, i + 1, (left - 1) as nat);
    } else {
        assert(cs.skip(i + 1) =~= Seq::empty());
        assert(l.sectors_per_cluster * 0 == 0);
        assert(spread(l, cs.skip(i + 1)) =~= Seq::empty());
        assert(chain_clusters(d, l, next_or_end(d, l, cs[i]), (left - 1) as nat) =~= Seq::empty());
        assert(chain_sectors(d, l, next_or_end(d, l, cs[i]), (left - 1) as nat) =~= Seq::empty());
    }
}

/// A chain without a loop has no more clusters than there are.
pub(crate) proof fn lemma_chain_short(l: Layout, cs: Seq<int>)
    requires
        proper(l),
        cs.no_duplicates(),
        forall|i: int| 0 <= i < cs.len() ==> is_cluster(l, #[trigger] cs[i]),
    ensures
        cs.len() <= l.clusters() < 0xFFF8,
{
    cs.unique_seq_to_set();
    let all = vstd::set_lib::set_int_range(2, l.clusters() + 2);
    vstd::set_lib::lemma_int_range(2, l.clusters() + 2);
    assert(cs.to_set().subset_of(all)) by {
        assert forall|x: int| cs.to_set().contains(x) implies all.contains(x) by {
            let i = choose|i: int| 0 <= i < cs.len() && cs[i] == x;
            assert(is_cluster(l, cs[i]));
        }
    }
    vstd::set_lib::lemma_len_subset(cs.to_set(), all);
}

// ---- Looking for a slot ----

proof fn lemma_search_part(d: Image, dir: Seq<int>, target: Seq<u8>, at: int, lba: int, m: int, x: Search)
    requires
        0 <= m,
        0 <= at,
        at + m <= dir.len(),
        readable(d, dir),
        forall|k: int| at <= k < at + m ==> #[trigger] dir[k] == lba + (k - at),
        x is On,
        search_ok(d, dir, target, 16 * at, x),
    ensures
        search_ok(d, dir, target, 16 * (at + m), searched_sectors(d, x, target, lba, m)),
    decreases m,
{
    if m > 0 {
        lemma_search_part(d, dir, target, at, lba, m - 1, x);
        let y = searched_sectors(d, x, target, lba, m - 1);
        let k = at + m - 1;
        assert(dir[k] == lba + m - 1);
        assert(sector(d, dir[k]) is Ok);
        if y is On {
            lemma_search_records(d, dir, target, k, y, 16);
        } else {
            lemma_search_later(d, dir, target, 16 * k, 16 * (at + m), y);
        }
    }
}

proof fn lemma_search_chain(d: Image, l: Layout, cs: Seq<int>, target: Seq<u8>, i: int, left: nat, x: Search)
    requires
        proper(l),
        whole(d, l, cs),
        readable(d, spread(l, cs)),
        0 <= i < cs.len(),
        left + i + 1 >= cs.len(),
        x is On,
        search_ok(d, spread(l, cs), target, 16 * (i * l.sectors_per_cluster), x),
    ensures
        ({
            let (y, last) = searched_chain(d, l, x, target, cs[i], left);
            &&& search_ok(d, spread(l, cs), target, 16 * spread(l, cs).len() as int, y)
            &&& y is On ==> last == cs.last()
        }),
    decreases cs.len() - i,
{
    let n = l.sectors_per_cluster as int;
    let dir = spread(l, cs);
    let at = i * n;
    assert(0 <= at && at + n <= n * cs.len()) by (nonlinear_arith)
        requires
            0 <= i < cs.len(),
            n > 0,
            at == i * n,
    ;
    assert forall|k: int| at <= k < at + n implies #[trigger] dir[k] == cluster_lba(l, cs[i]) + (k - at) by {
        lemma_spread_at(l, cs, i, k - at);
    }
    lemma_search_part(d, dir, target, at, cluster_lba(l, cs[i]), n, x);
    let y = searched_sectors(d, x, target, cluster_lba(l, cs[i]), n);
    assert(linked_at(d, l, cs, i));
    assert((i + 1) * n == at + n) by (nonlinear_arith)
        requires
            at == i * n,
    ;
    if y is On {
        if i + 1 < cs.len() {
            assert(is_cluster(l, cs[i + 1]));
            lemma_search_chain(d, l, cs, target, i + 1, (left - 1) as nat, y);
        } else {
            assert(dir.len() == at + n) by (nonlinear_arith)
                requires
                    i + 1 == cs.len(),
                    at == i * n,
                    dir.len() == n * cs.len(),
            ;
        }
    } else {
        lemma_search_later(d, dir, target, 16 * (at + n), 16 * dir.len() as int, y);
    }
}


// ---- Freeing and storing ----

/// Clearing the entry of `c` can only shorten a chain.
proof fn lemma_chain_cut(d: Image, d1: Image, l: Layout, c: int, y: int, n: nat, x: int)
    requires
        proper(l),
        links_ok(d, l),
        is_cluster(l, c),
        in_chain(y) ==> is_cluster(l, y),
        forall|z: int|
            0 <= z < l.clusters() + 2 ==> #[trigger] fat_get(d1, l, z) == if z == c {
                Some(0u16)
            } else {
                fat_get(d, l, z)
            },
        chain_clusters(d1, l, y, n).contains(x),
    ensures
        chain_clusters(d, l, y, n).contains(x),
    decreases n,
{
    let a = chain_clusters(d1, l, y, n);
    let b = chain_clusters(d, l, y, n);
    assert(in_chain(y) && n > 0);
    assert(fat_get(d1, l, y) == if y == c {
        Some(0u16)
    } else {
        fat_get(d, l, y)
    });
    let i = choose|i: int| 0 <= i < a.len() && a[i] == x;
    if i == 0 {
        assert(b[0] == x);
    } else if y == c {
        assert(chain_clusters(d1, l, 0, (n - 1) as nat) =~= Seq::empty());
    } else {
        let m = (n - 1) as nat;
        let rest = chain_clusters(d1, l, next_or_end(d1, l, y), m);
        assert(rest[i - 1] == x);
        assert(fat_get(d, l, y) matches Some(v) ==> in_chain(v as int) ==> is_cluster(l, v as int));
        lemma_chain_cut(d, d1, l, c, next_or_end(d, l, y), m, x);
        let tail = chain_clusters(d, l, next_or_end(d, l, y), m);
        let j = choose|j: int| 0 <= j < tail.len() && tail[j] == x;
        assert(b[j + 1] == x);
    }
}

/// Freeing a chain changes the entries of its own clusters only.
proof fn lemma_freed_entries(d: Image, l: Layout, c: int, left: nat)
    requires
        image_ok(d),
        proper(l),
        links_ok(d, l),
        in_chain(c) ==> is_cluster(l, c),
        freed(d, l, c, left).1 is Ok,
    ensures
        forall|x: int|
            0 <= x < l.clusters() + 2 && !chain_clusters(d, l, c, left).contains(x) ==> #[trigger] fat_get(
                freed(d, l, c, left).0,
                l,
                x,
            ) == fat_get(d, l, x),
    decreases left,
{
    if in_chain(c) && left > 0 {
        let next = fat_get(d, l, c)->0;
        let d1 = fat_set(d, l, c, 0, l.num_fats as int).0;
        lemma_fat_set(d, l, c, 0, l.num_fats as int);
        assert(links_ok(d1, l)) by {
            assert forall|x: int| is_cluster(l, x) implies (#[trigger] fat_get(d1, l, x) matches Some(v) ==> in_chain(
                v as int,
            ) ==> is_cluster(l, v as int)) by {
                assert(fat_get(d1, l, x) == if x == c {
                    Some(0u16)
                } else {
                    fat_get(d, l, x)
                });
            }
        }
        let m = (left - 1) as nat;
        lemma_freed_entries(d1, l, next as int, m);
        let d2 = freed(d, l, c, left).0;
        let all = chain_clusters(d, l, c, left);
        assert forall|x: int| 0 <= x < l.clusters() + 2 && !all.contains(x) implies #[trigger] fat_get(d2, l, x)
            == fat_get(d, l, x) by {
            assert(all[0] == c);
            if chain_clusters(d1, l, next as int, m).contains(x) {
                lemma_chain_cut(d, d1, l, c, next as int, m, x);
                let tail = chain_clusters(d, l, next as int, m);
                let j = choose|j: int| 0 <= j < tail.len() && tail[j] == x;
                assert(all[j + 1] == x);
            }
            assert(fat_get(d1, l, x) == fat_get(d, l, x));
        }
    }
}

/// The clusters of the file that a slot holds.
pub open spec fn old_clusters(d: Image, l: Layout, existing: Option<Entry>) -> Seq<int> {
    match existing {
        Some(e) => chain_clusters(d, l, e.cluster as int, MAX_CHAIN as nat),
        None => Seq::empty(),
    }
}

/// Whether nothing of a cluster is lost when a file is written: it is used,
/// and not by the file that is replaced.
pub open spec fn spared(d: Image, l: Layout, old: Seq<int>, c: int) -> bool {
    fat_get(d, l, c) != Some(0u16) && !old.contains(c)
}

/// Whether no cluster that may be written anew has the sector `x`.
pub open spec fn safe_sector(d: Image, l: Layout, old: Seq<int>, x: int) -> bool {
    &&& x >= l.root_dir_start_lba
    &&& forall|c: int| is_cluster(l, c) && !spared(d, l, old, c) ==> !#[trigger] in_cluster(l, c, x)
}

proof fn lemma_freed_outside(d: Image, l: Layout, existing: Option<Entry>)
    requires
        image_ok(d),
        proper(l),
        links_ok(d, l),
        existing matches Some(e) ==> in_chain(e.cluster as int) ==> is_cluster(l, e.cluster as int),
        existing matches Some(e) ==> e.cluster >= 2 ==> freed(d, l, e.cluster as int, MAX_CHAIN as nat).1 is Ok,
    ensures
        ({
            let d1 = after_freeing(d, l, existing);
            &&& image_ok(d1)
            &&& d1.len() == d.len()
            &&& forall|x: int| x >= l.root_dir_start_lba ==> #[trigger] sector(d1, x) == sector(d, x)
            &&& forall|x: int|
                0 <= x < l.clusters() + 2 && !old_clusters(d, l, existing).contains(x) ==> #[trigger] fat_get(d1, l, x)
                    == fat_get(d, l, x)
        }),
{
    if let Some(e) = existing {
        if e.cluster >= 2 {
            crate::fat16_laws::lemma_freed(d, l, e.cluster as int, MAX_CHAIN as nat);
            lemma_freed_entries(d, l, e.cluster as int, MAX_CHAIN as nat);
        }
    }
}

/// The image after the clusters of a replaced file were freed.
pub open spec fn after_freeing(d: Image, l: Layout, existing: Option<Entry>) -> Image {
    match existing {
        Some(e) => if e.cluster >= 2 {
            freed(d, l, e.cluster as int, MAX_CHAIN as nat).0
        } else {
            d
        },
        None => d,
    }
}

/// Writing a file at a slot changes the slot, the clusters that were free and
/// those of the file that was there, and nothing else.
#[verifier::spinoff_prover]
#[verifier::rlimit(40)]
proof fn lemma_saved_spares(
    d: Image,
    l: Layout,
    lba: int,
    off: int,
    existing: Option<Entry>,
    target: Seq<u8>,
    data: Seq<u8>,
)
    requires
        image_ok(d),
        proper(l),
        links_ok(d, l),
        lba >= l.root_dir_start_lba,
        existing matches Some(e) ==> in_chain(e.cluster as int) ==> is_cluster(l, e.cluster as int),
        saved_at(d, l, lba, off, existing, target, data).1 is Ok,
    ensures
        ({
            let d3 = saved_at(d, l, lba, off, existing, target, data).0;
            let old = old_clusters(d, l, existing);
            &&& forall|c: int|
                is_cluster(l, c) && spared(d, l, old, c) ==> #[trigger] fat_get(d3, l, c) == fat_get(d, l, c)
            &&& forall|x: int| x != lba && safe_sector(d, l, old, x) ==> #[trigger] sector(d3, x) == sector(d, x)
        }),
{
    let old = old_clusters(d, l, existing);
    let d1 = after_freeing(d, l, existing);
    lemma_freed_outside(d, l, existing);
    let d2 = stored(d1, l, data, 0, None, 0).0;
    let first = stored(d1, l, data, 0, None, 0).1->Ok_0;
    lemma_stored(d1, l, data, 0, None, 0);
    let cs = stored_clusters(d1, l, data, 0, None);
    let rec = file_record(target, first, data.len() as int);
    let d3 = saved_at(d, l, lba, off, existing, target, data).0;
    assert(d3 == record_stored(d2, lba, off, rec).0);
    assert forall|c: int| is_cluster(l, c) && spared(d, l, old, c) implies #[trigger] fat_get(d3, l, c) == fat_get(
        d,
        l,
        c,
    ) by {
        assert(fat_get(d1, l, c) == fat_get(d, l, c));
        if cs.contains(c) {
            let i = choose|i: int| 0 <= i < cs.len() && cs[i] == c;
            assert(fat_get(d1, l, cs[i]) == Some(0u16));
        }
        assert(fat_get(d2, l, c) == fat_get(d1, l, c));
        lemma_fat_get_same(d2, d3, l, c);
    }
    assert forall|x: int| x != lba && safe_sector(d, l, old, x) implies #[trigger] sector(d3, x) == sector(d, x) by {
        assert forall|i: int| 0 <= i < cs.len() implies !in_cluster(l, #[trigger] cs[i], x) by {
            assert(is_cluster(l, cs[i]) && fat_get(d1, l, cs[i]) == Some(0u16));
            assert(!spared(d, l, old, cs[i]));
        }
        assert(sector(d2, x) == sector(d1, x));
        assert(sector(d1, x) == sector(d, x));
    }
}

/// Reading back what was stored at a slot.
#[verifier::spinoff_prover]
#[verifier::rlimit(40)]
proof fn lemma_saved_content(
    d: Image,
    l: Layout,
    lba: int,
    off: int,
    existing: Option<Entry>,
    target: Seq<u8>,
    data: Seq<u8>,
) -> (first: int)
    requires
        image_ok(d),
        proper(l),
        links_ok(d, l),
        lba >= l.root_dir_start_lba,
        safe_sector(d, l, old_clusters(d, l, existing), lba),
        0 <= off <= 480,
        target.len() == 11,
        data.len() <= 0xFFFF_FFFF,
        existing matches Some(e) ==> in_chain(e.cluster as int) ==> is_cluster(l, e.cluster as int),
        saved_at(d, l, lba, off, existing, target, data).1 is Ok,
    ensures
        ({
            let d3 = saved_at(d, l, lba, off, existing, target, data).0;
            &&& 0 <= first < 0x1_0000
            &&& image_ok(d3)
            &&& sector(d, lba) is Ok
            &&& sector(d3, lba) == Ok::<Seq<u8>, &'static str>(
                splice(sector(d, lba)->Ok_0, off, file_record(target, first, data.len() as int)),
            )
            &&& entry_content(
                d3,
                l,
                (Entry {
                    name: short_text(target),
                    is_dir: false,
                    size: data.len() as u32,
                    cluster: first as u32,
                }),
            ) == Ok::<Seq<u8>, &'static str>(data)
        }),
{
    let old = old_clusters(d, l, existing);
    let d1 = after_freeing(d, l, existing);
    lemma_freed_outside(d, l, existing);
    let d2 = stored(d1, l, data, 0, None, 0).0;
    let first = stored(d1, l, data, 0, None, 0).1->Ok_0;
    lemma_stored(d1, l, data, 0, None, 0);
    let cs = stored_clusters(d1, l, data, 0, None);
    let rec = file_record(target, first, data.len() as int);
    let d3 = saved_at(d, l, lba, off, existing, target, data).0;
    assert(d3 == record_stored(d2, lba, off, rec).0);
    assert forall|i: int| 0 <= i < cs.len() implies !in_cluster(l, #[trigger] cs[i], lba) by {
        assert(is_cluster(l, cs[i]) && fat_get(d1, l, cs[i]) == Some(0u16));
        assert(!spared(d, l, old, cs[i]));
    }
    assert(sector(d2, lba) == sector(d1, lba));
    assert(sector(d1, lba) == sector(d, lba));
    if data.len() > 0 {
        assert(is_cluster(l, cs[0]));
    }
    lemma_file_record(target, first, data.len() as int);
    assert(image_ok(d3));
    let per = l.sectors_per_cluster * 512;
    assert forall|c: int| 0 <= c < l.clusters() + 2 implies #[trigger] fat_get(d3, l, c) == fat_get(d2, l, c) by {
        lemma_fat_get_same(d2, d3, l, c);
    }
    if data.len() > 0 {
        assert(linked_up(d3, l, cs)) by {
            assert forall|i: int| 0 <= i < cs.len() implies fat_get(d3, l, cs[i]) == #[trigger] link_after(cs, i) by {
                assert(is_cluster(l, cs[i]));
            }
        }
        assert(filled(d3, l, data, 0, cs)) by {
            assert forall|i: int, k: int| 0 <= i < cs.len() && 0 <= k < l.sectors_per_cluster implies sector(
                d3,
                #[trigger] cluster_sector(l, #[trigger] cs[i], k),
            ) == Ok::<Seq<u8>, &'static str>(block(data, 0 + i * per + 512 * k)) by {
                lemma_cluster_in_data(l, cs[i]);
                assert(!in_cluster(l, cs[i], lba));
                assert(sector(d2, cluster_sector(l, cs[i], k)) == Ok::<Seq<u8>, &'static str>(block(data, 0 + i * per + 512 * k)));
            }
        }
        lemma_mul_step(0, per);
        let last = cs.len() - 1;
        assert(is_cluster(l, cs[last]) && 0 + last * per < data.len());
        assert(last <= last * per) by (nonlinear_arith)
            requires
                last >= 0,
                per >= 1,
        ;
        assert(data.take(0) =~= Seq::empty());
        lemma_read_back(d3, l, data, cs, 0, chain_budget(data.len() as int));
    } else {
        assert(data =~= Seq::empty());
    }
    first
}

/// A directory in which one record was replaced by that of a file shows the
/// file under its name.
proof fn lemma_shown(d: Image, d3: Image, l: Layout, location: DirLocation, q: int, name: Seq<u8>, first: int, len: int)
    requires
        image_ok(d),
        readable(d, dir_sectors(d, l, location)),
        dir_sectors(d, l, location).no_duplicates(),
        dir_sectors(d3, l, location) == dir_sectors(d, l, location),
        storable(name),
        0 <= first < 0x1_0000,
        0 <= len < 0x1_0000_0000,
        0 <= q < 16 * dir_sectors(d, l, location).len(),
        no_end(d, dir_sectors(d, l, location), q),
        clear_slot(d, dir_sectors(d, l, location), q, name),
        forall|i: int|
            0 <= i < dir_sectors(d, l, location).len() ==> sector(d3, #[trigger] dir_sectors(d, l, location)[i]) == if i
                == q / 16 {
                Ok::<Seq<u8>, &'static str>(
                    splice(
                        sector(d, dir_sectors(d, l, location)[i])->Ok_0,
                        32 * (q % 16),
                        file_record(short_name(name), first, len),
                    ),
                )
            } else {
                sector(d, dir_sectors(d, l, location)[i])
            },
    ensures
        found(Volume { image: d3, layout: Some(l) }, location, name) == Ok::<Entry, &'static str>(
            Entry { name: short_text(short_name(name)), is_dir: false, size: len as u32, cluster: first as u32 },
        ),
{
    let dir = dir_sectors(d, l, location);
    let target = short_name(name);
    let rec = file_record(target, first, len);
    let e = Entry { name: short_text(target), is_dir: false, size: len as u32, cluster: first as u32 };
    lemma_file_record(target, first, len);
    lemma_no_attributes();
    lemma_replaced(d, d3, dir, q, rec);
    assert(sector(d, dir[q / 16]) is Ok);
    assert(record_at(d, dir, q).len() == 32);
    assert(splice(record_at(d, dir, q), 0, rec) =~= rec);
    lemma_listed_same(d, d3, dir, q);
    lemma_not_done(d, dir, q);
    let before = listed_to(d3, dir, q).entries;
    let after = listed_to(d3, dir, q + 1);
    assert(after.entries =~= before.push(e));
    let n = 16 * dir.len() as int;
    lemma_listed_grows(d3, dir, q + 1, n);
    let all = listed_to(d3, dir, n).entries;
    let i = before.len() as int;
    assert(all.take(i + 1) == after.entries);
    assert(all[i] == all.take(i + 1)[i]);
    assert(all.take(i) =~= before) by {
        assert(all.take(i) =~= all.take(i + 1).take(i));
    }
    lemma_first_named(all, i, name);
    assert(dir.skip(0) =~= dir);
    lemma_listing(d3, dir, 0);
}

// ---- The slot of a name ----

/// A directory that can be searched and listed: every sector of it can be
/// read, and outside the root its clusters are a chain with an end.
pub open spec fn sound_dir(d: Image, l: Layout, location: DirLocation) -> bool {
    &&& readable(d, dir_sectors(d, l, location))
    &&& location matches DirLocation::Cluster(c) ==> in_chain(c as int) && whole(d, l, dir_clusters(d, l, location))
}

/// The clusters of a directory; none for the root.
pub open spec fn dir_clusters(d: Image, l: Layout, location: DirLocation) -> Seq<int> {
    match location {
        DirLocation::Root => Seq::empty(),
        DirLocation::Cluster(c) => chain_clusters(d, l, c as int, MAX_CHAIN as nat),
    }
}

proof fn lemma_dir_sectors(d: Image, l: Layout, c: u32, cs: Seq<int>)
    requires
        proper(l),
        whole(d, l, cs),
        cs[0] == c,
    ensures
        dir_sectors(d, l, DirLocation::Cluster(c)) == spread(l, cs),
        dir_clusters(d, l, DirLocation::Cluster(c)) == cs,
{
    lemma_chain_short(l, cs);
    lemma_chain(d, l, cs, 0, MAX_CHAIN as nat);
    assert(cs.skip(0) =~= cs);
}

/// What is known of the slot that a search has found in a directory.
spec fn good_slot(
    d: Image,
    l: Layout,
    location: DirLocation,
    target: Seq<u8>,
    lba: int,
    off: int,
    e: Option<Entry>,
    q: int,
) -> bool {
    let dir = dir_sectors(d, l, location);
    &&& is_slot(d, dir, lba, off, q)
    &&& none_matching(d, dir, target, q)
    &&& e is None ==> record_at(d, dir, q)[0] == ENTRY_FREE || record_at(d, dir, q)[0] == ENTRY_DELETED
    &&& e matches Some(x) ==> shows(record_at(d, dir, q), x) && record_at(d, dir, q).subrange(0, 11) == target
}

/// Whether a record is that of an entry, and is shown in listings.
spec fn shows(rec: Seq<u8>, e: Entry) -> bool {
    &&& e == entry_of(rec)
    &&& rec[0] != ENTRY_FREE
    &&& rec[0] != ENTRY_DELETED
    &&& rec[0] != ENTRY_DOT
    &&& rec[11] & ATTR_VOLUME_ID == 0
}

proof fn lemma_found_slot(d: Image, l: Layout, location: DirLocation, target: Seq<u8>, x: Search) -> (q: int)
    requires
        search_ok(d, dir_sectors(d, l, location), target, 16 * dir_sectors(d, l, location).len() as int, x),
        !(x is Failed),
        x != Search::On(None),
    ensures
        match x {
            Search::Hit(lba, off, e) => good_slot(d, l, location, target, lba, off, e, q),
            Search::On(Some((lba, off))) => good_slot(d, l, location, target, lba, off, None, q),
            _ => false,
        },
{
    let dir = dir_sectors(d, l, location);
    let n = 16 * dir.len() as int;
    match x {
        Search::On(Some((lba, off))) => {
            choose|q: int|
                #![trigger record_at(d, dir, q)]
                q < n && is_slot(d, dir, lba, off, q) && record_at(d, dir, q)[0] == ENTRY_DELETED
        },
        Search::Hit(lba, off, None) => {
            choose|q: int|
                #![trigger record_at(d, dir, q)]
                q < n && is_slot(d, dir, lba, off, q) && none_matching(d, dir, target, q) && (record_at(
                    d,
                    dir,
                    q,
                )[0] == ENTRY_FREE || record_at(d, dir, q)[0] == ENTRY_DELETED)
        },
        Search::Hit(lba, off, Some(e)) => {
            choose|q: int|
                #![trigger record_at(d, dir, q)]
                q < n && is_slot(d, dir, lba, off, q) && none_matching(d, dir, target, q) && shows(
                    record_at(d, dir, q),
                    e,
                ) && record_at(d, dir, q).subrange(0, 11) == target
        },
        _ => 0,
    }
}

proof fn lemma_zero_run(d: Image, lba: int, zeros: Seq<u8>, n: int)
    requires
        forall|i: int| 0 <= i < zeros.len() ==> zeros[i] == 0,
    ensures
        write_run(d, lba, zeros, 0, n) == write_run(d, lba, Seq::empty(), 0, n),
    decreases n,
{
    if n > 0 {
        lemma_zero_run(d, lba, zeros, n - 1);
        assert(block(zeros, 512 * (n - 1)) =~= block(Seq::empty(), 512 * (n - 1)));
    }
}

/// A cluster's worth of zeros.
spec fn blank(l: Layout) -> Seq<u8> {
    Seq::new((l.sectors_per_cluster * 512) as nat, |i: int| 0u8)
}

/// Adding a cluster to a directory is storing a cluster of zeros behind it.
proof fn lemma_extended_stored(d: Image, l: Layout, last: int)
    requires
        l.sectors_per_cluster > 0,
        extended(d, l, last).1 is Ok,
    ensures
        stored(d, l, blank(l), 0, Some(last), 0) == extended(d, l, last),
        stored_clusters(d, l, blank(l), 0, Some(last)) == seq![extended(d, l, last).1->Ok_0],
{
    let per = l.sectors_per_cluster * 512;
    let (d1, r) = extended(d, l, last);
    let n = r->Ok_0;
    let (da, ra) = allocated(d, l);
    let db = fat_set(da, l, last, (n % 0x1_0000) as u16, l.num_fats as int).0;
    lemma_zero_run(db, cluster_lba(l, n), blank(l), l.sectors_per_cluster as int);
    reveal_with_fuel(stored, 3);
    reveal_with_fuel(stored_clusters, 3);
    assert(min(0 + per, blank(l).len() as int) == blank(l).len());
    assert(stored_clusters(d, l, blank(l), 0, Some(last)) =~= seq![n]);
}

/// Adding a cluster to a directory: it was free, it ends the chain, and its
/// records are free.
#[verifier::spinoff_prover]
#[verifier::rlimit(40)]
proof fn lemma_extended(d: Image, l: Layout, cs: Seq<int>)
    requires
        image_ok(d),
        proper(l),
        links_ok(d, l),
        whole(d, l, cs),
        extended(d, l, cs.last()).1 is Ok,
    ensures
        ({
            let (d1, r) = extended(d, l, cs.last());
            let n = r->Ok_0;
            &&& image_ok(d1)
            &&& is_cluster(l, n)
            &&& fat_get(d, l, n) == Some(0u16)
            &&& fat_get(d1, l, n) == Some(0xFFFFu16)
            &&& forall|c: int|
                0 <= c < l.clusters() + 2 && c != n ==> #[trigger] fat_get(d1, l, c) == if c == cs.last() {
                    Some(n as u16)
                } else {
                    fat_get(d, l, c)
                }
            &&& forall|x: int|
                x >= l.root_dir_start_lba && !in_cluster(l, n, x) ==> #[trigger] sector(d1, x) == sector(d, x)
            &&& forall|k: int|
                0 <= k < l.sectors_per_cluster ==> sector(d1, #[trigger] cluster_sector(l, n, k)) == Ok::<Seq<u8>, &'static str>(
                    block(Seq::empty(), 0),
                )
        }),
{
    let last = cs.last();
    let per = l.sectors_per_cluster * 512;
    let zeros = blank(l);
    let (d1, r) = extended(d, l, last);
    let n = r->Ok_0;
    assert(is_cluster(l, cs[cs.len() - 1]));
    assert(linked_at(d, l, cs, cs.len() - 1));
    lemma_extended_stored(d, l, last);
    lemma_stored(d, l, zeros, 0, Some(last), 0);
    let fresh = stored_clusters(d, l, zeros, 0, Some(last));
    assert(holds(d, d1, l, zeros, 0, Some(last), fresh));
    assert(fresh[0] == n);
    assert(link_after(fresh, 0) == Some(0xFFFFu16));
    assert forall|c: int| 0 <= c < l.clusters() + 2 && c != n implies #[trigger] fat_get(d1, l, c) == if c == cs.last() {
        Some(n as u16)
    } else {
        fat_get(d, l, c)
    } by {
        assert(!fresh.contains(c));
    }
    assert forall|k: int| 0 <= k < l.sectors_per_cluster implies sector(d1, #[trigger] cluster_sector(l, n, k)) == Ok::<Seq<u8>, &'static str>(
        block(Seq::empty(), 0),
    ) by {
        assert(sector(d1, cluster_sector(l, fresh[0], k)) == Ok::<Seq<u8>, &'static str>(block(zeros, 0 + 0 * per + 512 * k)));
        assert(0 * per == 0);
        assert(block(zeros, 512 * k) =~= block(Seq::empty(), 0));
    }
    assert forall|x: int| x >= l.root_dir_start_lba && !in_cluster(l, n, x) implies #[trigger] sector(d1, x)
        == sector(d, x) by {
        assert forall|i: int| 0 <= i < fresh.len() implies !in_cluster(l, #[trigger] fresh[i], x) by {}
    }
}

proof fn lemma_grown(d: Image, l: Layout, cs: Seq<int>)
    requires
        image_ok(d),
        proper(l),
        links_ok(d, l),
        whole(d, l, cs),
        readable(d, spread(l, cs)),
        extended(d, l, cs.last()).1 is Ok,
    ensures
        ({
            let (d1, r) = extended(d, l, cs.last());
            let n = r->Ok_0;
            &&& links_ok(d1, l)
            &&& !cs.contains(n)
            &&& whole(d1, l, cs.push(n))
            &&& readable(d1, spread(l, cs.push(n)))
            &&& forall|p: int| 0 <= p < spread(l, cs).len() ==> #[trigger] spread(l, cs.push(n))[p] == spread(l, cs)[p]
            &&& forall|p: int|
                0 <= p < spread(l, cs).len() ==> sector(d1, #[trigger] spread(l, cs)[p]) == sector(d, spread(l, cs)[p])
            &&& spread(l, cs).len() < spread(l, cs.push(n)).len()
            &&& forall|p: int|
                spread(l, cs).len() <= p < spread(l, cs.push(n)).len() ==> sector(
                    d1,
                    #[trigger] spread(l, cs.push(n))[p],
                ) == Ok::<Seq<u8>, &'static str>(block(Seq::empty(), 0))
            &&& spread(l, cs.push(n))[spread(l, cs).len() as int] == cluster_lba(l, n)
        }),
{
    lemma_extended(d, l, cs);
    let (d1, r) = extended(d, l, cs.last());
    let n = r->Ok_0;
    let more = cs.push(n);
    let spc = l.sectors_per_cluster as int;
    if cs.contains(n) {
        let i = choose|i: int| 0 <= i < cs.len() && cs[i] == n;
        assert(linked_at(d, l, cs, i));
    }
    assert forall|i: int| 0 <= i < more.len() implies #[trigger] linked_at(d1, l, more, i) by {
        if i < cs.len() {
            assert(linked_at(d, l, cs, i));
            assert(is_cluster(l, cs[i]));
            assert(cs[i] != n);
            assert(cs[i] == cs.last() ==> i == cs.len() - 1);
        }
    }
    assert forall|i: int| 0 <= i < more.len() implies is_cluster(l, #[trigger] more[i]) by {
        if i < cs.len() {
            assert(is_cluster(l, cs[i]));
        }
    }
    assert(links_ok(d1, l)) by {
        assert forall|c: int| is_cluster(l, c) implies (#[trigger] fat_get(d1, l, c) matches Some(v) ==> in_chain(
            v as int,
        ) ==> is_cluster(l, v as int)) by {
            assert(fat_get(d, l, c) matches Some(v) ==> in_chain(v as int) ==> is_cluster(l, v as int));
        }
    }
    let a = spread(l, cs);
    let b = spread(l, more);
    assert(spc * more.len() == spc * cs.len() + spc) by (nonlinear_arith)
        requires
            more.len() == cs.len() + 1,
    ;
    assert forall|p: int| 0 <= p < a.len() implies #[trigger] b[p] == a[p] by {
        lemma_spread_index(l, cs, p);
    }
    assert forall|p: int| 0 <= p < a.len() implies sector(d1, #[trigger] a[p]) == sector(d, a[p]) by {
        lemma_spread_index(l, cs, p);
        let c = cs[p / spc];
        assert(is_cluster(l, c));
        lemma_cluster_in_data(l, c);
        if in_cluster(l, n, a[p]) {
            lemma_clusters_apart(l, n, c, a[p]);
        }
    }
    assert forall|p: int| 0 <= p < b.len() implies sector(d1, #[trigger] b[p]) is Ok && (a.len() <= p ==> sector(
        d1,
        b[p],
    ) == Ok::<Seq<u8>, &'static str>(block(Seq::empty(), 0))) by {
        lemma_spread_index(l, more, p);
        if p < a.len() {
            assert(b[p] == a[p]);
            assert(sector(d, a[p]) is Ok);
        } else {
            let i = p / spc;
            let k = p % spc;
            assert(i == cs.len()) by (nonlinear_arith)
                requires
                    p == i * spc + k,
                    0 <= k < spc,
                    spc * cs.len() <= p,
                    i < cs.len() + 1,
            ;
            lemma_spread_at(l, more, i, k);
            assert(b[p] == cluster_sector(l, n, k));
        }
    }
    assert(cs.len() * spc == a.len()) by (nonlinear_arith)
        requires
            a.len() == spc * cs.len(),
    ;
    lemma_spread_at(l, more, cs.len() as int, 0);
}

/// The slot that a name gets in a sound directory: what the directory is
/// then, and that nothing but free clusters and the directory has changed.
#[verifier::spinoff_prover]
#[verifier::rlimit(40)]
proof fn lemma_slot(d: Image, l: Layout, location: DirLocation, target: Seq<u8>) -> (q: int)
    requires
        image_ok(d),
        proper(l),
        links_ok(d, l),
        sound_dir(d, l, location),
        slot_for(d, l, location, target).1 is Ok,
    ensures
        ({
            let (d1, r) = slot_for(d, l, location, target);
            let (lba, off, e) = r->Ok_0;
            &&& image_ok(d1)
            &&& links_ok(d1, l)
            &&& sound_dir(d1, l, location)
            &&& good_slot(d1, l, location, target, lba, off, e, q)
            &&& e is Some ==> d1 == d
            &&& forall|c: int|
                #[trigger] dir_clusters(d1, l, location).contains(c) ==> dir_clusters(d, l, location).contains(c)
                    || fat_get(d, l, c) == Some(0u16)
            &&& forall|c: int|
                is_cluster(l, c) && spared(d, l, dir_clusters(d, l, location), c) ==> #[trigger] fat_get(d1, l, c)
                    == fat_get(d, l, c)
            &&& forall|x: int| safe_sector(d, l, Seq::empty(), x) ==> #[trigger] sector(d1, x) == sector(d, x)
        }),
{
    let (d1, r) = slot_for(d, l, location, target);
    let dir = dir_sectors(d, l, location);
    match location {
        DirLocation::Root => {
            let base = l.root_dir_start_lba as int;
            let n = l.root_dir_sectors as int;
            let x = searched_sectors(d, Search::On(None), target, base, n);
            assert(search_ok(d, dir, target, 0, Search::On(None)));
            lemma_search_part(d, dir, target, 0, base, n, Search::On(None));
            lemma_found_slot(d, l, location, target, x)
        },
        DirLocation::Cluster(c) => {
            let cs = dir_clusters(d, l, location);
            assert(cs[0] == c);
            lemma_dir_sectors(d, l, c, cs);
            lemma_chain_short(l, cs);
            assert(0 * l.sectors_per_cluster == 0);
            assert(search_ok(d, dir, target, 0, Search::On(None)));
            lemma_search_chain(d, l, cs, target, 0, MAX_CHAIN as nat, Search::On(None));
            let (x, last) = searched_chain(d, l, Search::On(None), target, c as int, MAX_CHAIN as nat);
            if x == Search::On(None) {
                lemma_extended(d, l, cs);
                lemma_grown(d, l, cs);
                let n = extended(d, l, last).1->Ok_0;
                let more = cs.push(n);
                assert(more[0] == c);
                lemma_dir_sectors(d1, l, c, more);
                let grown = spread(l, more);
                let q = 16 * dir.len() as int;
                assert forall|j: int| 0 <= j < q implies (#[trigger] record_at(d1, grown, j))[0] != ENTRY_FREE by {
                    assert(grown[j / 16] == dir[j / 16]);
                    assert(sector(d1, dir[j / 16]) == sector(d, dir[j / 16]));
                    assert(record_at(d, dir, j)[0] != ENTRY_FREE);
                }
                assert forall|j: int| 0 <= j < q implies !matching(#[trigger] record_at(d1, grown, j), target) by {
                    assert(grown[j / 16] == dir[j / 16]);
                    assert(sector(d1, dir[j / 16]) == sector(d, dir[j / 16]));
                    assert(!matching(record_at(d, dir, j), target));
                }
                assert(grown[q / 16] == cluster_sector(l, n, 0));
                assert(record_at(d1, grown, q)[0] == ENTRY_FREE);
                assert forall|b: int| #[trigger] dir_clusters(d1, l, location).contains(b) implies dir_clusters(
                    d,
                    l,
                    location,
                ).contains(b) || fat_get(d, l, b) == Some(0u16) by {
                    let i = choose|i: int| 0 <= i < more.len() && more[i] == b;
                    if i < cs.len() {
                        assert(cs[i] == b);
                    }
                }
                assert forall|b: int| is_cluster(l, b) && spared(d, l, cs, b) implies #[trigger] fat_get(d1, l, b)
                    == fat_get(d, l, b) by {
                    assert(cs.contains(cs[cs.len() - 1]));
                }
                assert forall|y: int| safe_sector(d, l, Seq::empty(), y) implies #[trigger] sector(d1, y) == sector(
                    d,
                    y,
                ) by {
                    assert(!spared(d, l, Seq::empty(), n));
                    assert(!in_cluster(l, n, y));
                }
                q
            } else {
                lemma_found_slot(d, l, location, target, x)
            }
        },
    }
}

// ---- Writing and reading back ----

/// Whether the file can be shown under its name once it is written: no other
/// entry is shown under that name before its own, none of a long name's parts
/// stands before it, and the clusters of a file that it replaces are not also
/// the directory's.
pub open spec fn slot_clear(d: Image, l: Layout, location: DirLocation, name: Seq<u8>) -> bool {
    match slot_for(d, l, location, short_name(name)) {
        (d1, Ok((lba, off, existing))) => {
            let dir = dir_sectors(d1, l, location);
            &&& forall|q: int| #[trigger] is_slot(d1, dir, lba, off, q) ==> clear_slot(d1, dir, q, name)
            &&& existing matches Some(e) ==> in_chain(e.cluster as int) ==> is_cluster(l, e.cluster as int)
            &&& forall|c: int|
                #[trigger] old_clusters(d, l, existing).contains(c) ==> !dir_clusters(d, l, location).contains(c)
        },
        _ => true,
    }
}

/// The clusters of the file that writing a name replaces.
pub open spec fn replaced_clusters(d: Image, l: Layout, location: DirLocation, name: Seq<u8>) -> Seq<int> {
    match slot_for(d, l, location, short_name(name)) {
        (d1, Ok((lba, off, existing))) => old_clusters(d, l, existing),
        _ => Seq::empty(),
    }
}

/// The image after a file was written in a directory.
pub open spec fn saved_in(d: Image, l: Layout, location: DirLocation, name: Seq<u8>, data: Seq<u8>) -> (
    Image,
    Result<(), &'static str>,
) {
    match slot_for(d, l, location, short_name(name)) {
        (d1, Err(e)) => (d1, Err(e)),
        (d1, Ok((lba, off, existing))) => saved_at(d1, l, lba, off, existing, short_name(name), data),
    }
}

/// The sectors of a sound directory are safe while a file is written in it.
proof fn lemma_dir_safe(d: Image, l: Layout, location: DirLocation, old: Seq<int>, i: int)
    requires
        proper(l),
        sound_dir(d, l, location),
        forall|c: int| #[trigger] old.contains(c) ==> !dir_clusters(d, l, location).contains(c),
        0 <= i < dir_sectors(d, l, location).len(),
    ensures
        safe_sector(d, l, old, dir_sectors(d, l, location)[i]),
{
    let dir = dir_sectors(d, l, location);
    let x = dir[i];
    match location {
        DirLocation::Root => {
            assert forall|c: int| is_cluster(l, c) && !spared(d, l, old, c) implies !#[trigger] in_cluster(
                l,
                c,
                x,
            ) by {
                lemma_cluster_in_data(l, c);
            }
        },
        DirLocation::Cluster(b) => {
            let cs = dir_clusters(d, l, location);
            assert(cs[0] == b);
            lemma_dir_sectors(d, l, b, cs);
            lemma_spread_index(l, cs, i);
            let j = i / (l.sectors_per_cluster as int);
            let own = cs[j];
            assert(is_cluster(l, own));
            assert(linked_at(d, l, cs, j));
            assert(cs.contains(own));
            lemma_cluster_in_data(l, own);
            assert forall|c: int| is_cluster(l, c) && !spared(d, l, old, c) implies !#[trigger] in_cluster(
                l,
                c,
                x,
            ) by {
                if in_cluster(l, c, x) {
                    lemma_clusters_apart(l, c, own, x);
                }
            }
        },
    }
}

proof fn lemma_dir_distinct(d: Image, l: Layout, location: DirLocation)
    requires
        proper(l),
        sound_dir(d, l, location),
    ensures
        dir_sectors(d, l, location).no_duplicates(),
{
    if let DirLocation::Cluster(b) = location {
        let cs = dir_clusters(d, l, location);
        assert(cs[0] == b);
        lemma_dir_sectors(d, l, b, cs);
        lemma_spread_distinct(l, cs);
    }
}

/// A directory whose clusters' entries are unchanged has the same sectors.
proof fn lemma_dir_same(d: Image, d1: Image, l: Layout, location: DirLocation)
    requires
        proper(l),
        sound_dir(d, l, location),
        forall|c: int|
            dir_clusters(d, l, location).contains(c) ==> #[trigger] fat_get(d1, l, c) == fat_get(d, l, c),
    ensures
        dir_sectors(d1, l, location) == dir_sectors(d, l, location),
        dir_clusters(d1, l, location) == dir_clusters(d, l, location),
{
    if let DirLocation::Cluster(b) = location {
        let cs = dir_clusters(d, l, location);
        assert(cs[0] == b);
        lemma_dir_sectors(d, l, b, cs);
        assert forall|i: int| 0 <= i < cs.len() implies #[trigger] linked_at(d1, l, cs, i) by {
            assert(linked_at(d, l, cs, i));
            assert(cs.contains(cs[i]));
        }
        lemma_dir_sectors(d1, l, b, cs);
    }
}

/// Writing a file in a directory puts its record at the slot of its name, and
/// leaves the rest of the directory as the slot was found in it.
#[verifier::spinoff_prover]
#[verifier::rlimit(60)]
proof fn lemma_written_slot(d: Image, l: Layout, location: DirLocation, name: Seq<u8>, data: Seq<u8>) -> (r: (int, int))
    requires
        image_ok(d),
        proper(l),
        links_ok(d, l),
        sound_dir(d, l, location),
        slot_clear(d, l, location, name),
        data.len() <= 0xFFFF_FFFF,
        saved_in(d, l, location, name, data).1 is Ok,
    ensures
        ({
            let (q, first) = r;
            let (d1, found) = slot_for(d, l, location, short_name(name));
            let (lba, off, existing) = found->Ok_0;
            let d3 = saved_in(d, l, location, name, data).0;
            let dir = dir_sectors(d1, l, location);
            let rec = file_record(short_name(name), first, data.len() as int);
            &&& found is Ok
            &&& image_ok(d1)
            &&& image_ok(d3)
            &&& sound_dir(d1, l, location)
            &&& good_slot(d1, l, location, short_name(name), lba, off, existing, q)
            &&& clear_slot(d1, dir, q, name)
            &&& dir.no_duplicates()
            &&& dir_sectors(d3, l, location) == dir
            &&& 0 <= first < 0x1_0000
            &&& forall|i: int|
                0 <= i < dir.len() ==> sector(d3, #[trigger] dir[i]) == if i == q / 16 {
                    Ok::<Seq<u8>, &'static str>(splice(sector(d1, dir[i])->Ok_0, 32 * (q % 16), rec))
                } else {
                    sector(d1, dir[i])
                }
            &&& forall|e: Entry|
                e.cluster == first && e.size == data.len() ==> #[trigger] entry_content(d3, l, e) == Ok::<
                    Seq<u8>,
                    &'static str,
                >(data)
        }),
{
    let target = short_name(name);
    let q = lemma_slot(d, l, location, target);
    let (d1, r) = slot_for(d, l, location, target);
    let (lba, off, existing) = r->Ok_0;
    let dir = dir_sectors(d1, l, location);
    let old = old_clusters(d1, l, existing);
    assert(old == old_clusters(d, l, existing));
    assert(is_slot(d1, dir, lba, off, q));
    assert forall|c: int| #[trigger] old.contains(c) implies !dir_clusters(d1, l, location).contains(c) by {}
    lemma_dir_safe(d1, l, location, old, q / 16);
    let first = lemma_saved_content(d1, l, lba, off, existing, target, data);
    lemma_saved_spares(d1, l, lba, off, existing, target, data);
    lemma_dir_distinct(d1, l, location);
    let d3 = saved_in(d, l, location, name, data).0;
    assert forall|c: int| dir_clusters(d1, l, location).contains(c) implies #[trigger] fat_get(d3, l, c) == fat_get(
        d1,
        l,
        c,
    ) by {
        let cs = dir_clusters(d1, l, location);
        let i = choose|i: int| 0 <= i < cs.len() && cs[i] == c;
        assert(linked_at(d1, l, cs, i));
        assert(is_cluster(l, cs[i]));
        assert(spared(d1, l, old, c));
    }
    lemma_dir_same(d1, d3, l, location);
    let rec = file_record(target, first, data.len() as int);
    assert forall|i: int| 0 <= i < dir.len() implies sector(d3, #[trigger] dir[i]) == if i == q / 16 {
        Ok::<Seq<u8>, &'static str>(splice(sector(d1, dir[i])->Ok_0, 32 * (q % 16), rec))
    } else {
        sector(d1, dir[i])
    } by {
        if i != q / 16 {
            lemma_dir_safe(d1, l, location, old, i);
            assert(dir[i] != dir[q / 16]);
        }
    }
    (q, first)
}

/// A file that was written in a directory is found there, with its data.
proof fn lemma_written_in(d: Image, l: Layout, location: DirLocation, name: Seq<u8>, data: Seq<u8>)
    requires
        image_ok(d),
        proper(l),
        links_ok(d, l),
        sound_dir(d, l, location),
        storable(name),
        slot_clear(d, l, location, name),
        data.len() <= 0xFFFF_FFFF,
        saved_in(d, l, location, name, data).1 is Ok,
    ensures
        ({
            let d3 = saved_in(d, l, location, name, data).0;
            &&& image_ok(d3)
            &&& found(Volume { image: d3, layout: Some(l) }, location, name) matches Ok(e) && !e.is_dir && e.size
                == data.len() && e.name == short_text(short_name(name)) && entry_content(d3, l, e) == Ok::<
                Seq<u8>,
                &'static str,
            >(data)
        }),
{
    let (q, first) = lemma_written_slot(d, l, location, name, data);
    let d1 = slot_for(d, l, location, short_name(name)).0;
    let d3 = saved_in(d, l, location, name, data).0;
    lemma_shown(d1, d3, l, location, q, name, first, data.len() as int);
}

/// Whether a directory shares nothing with what writing a file may change:
/// neither clusters with the directory that the file is in, nor with the file
/// that it replaces.
pub open spec fn apart(d: Image, l: Layout, other: DirLocation, location: DirLocation, old: Seq<int>) -> bool {
    &&& sound_dir(d, l, other)
    &&& other is Root ==> location != DirLocation::Root
    &&& forall|c: int|
        #[trigger] dir_clusters(d, l, other).contains(c) ==> !dir_clusters(d, l, location).contains(c)
            && !old.contains(c)
}

proof fn lemma_listed_sectors_same(d: Image, d1: Image, x: Listing, dir: Seq<int>)
    requires
        forall|i: int| 0 <= i < dir.len() ==> sector(d1, #[trigger] dir[i]) == sector(d, dir[i]),
    ensures
        listed_sectors(d1, x, dir) == listed_sectors(d, x, dir),
    decreases dir.len(),
{
    if dir.len() > 0 {
        assert(sector(d1, dir[0]) == sector(d, dir[0]));
        let rest = dir.drop_first();
        assert forall|i: int| 0 <= i < rest.len() implies sector(d1, #[trigger] rest[i]) == sector(d, rest[i]) by {
            assert(rest[i] == dir[i + 1]);
        }
        if let Ok(s) = sector(d, dir[0]) {
            lemma_listed_sectors_same(d, d1, crate::volume::listed_records(x, s, 16), rest);
        }
    }
}

/// Writing a file leaves every other directory as it was.
#[verifier::spinoff_prover]
#[verifier::rlimit(60)]
pub proof fn law_other_directories_stay(
    d: Image,
    l: Layout,
    location: DirLocation,
    name: Seq<u8>,
    data: Seq<u8>,
    other: DirLocation,
)
    requires
        image_ok(d),
        proper(l),
        links_ok(d, l),
        sound_dir(d, l, location),
        slot_clear(d, l, location, name),
        apart(d, l, other, location, replaced_clusters(d, l, location, name)),
        saved_in(d, l, location, name, data).1 is Ok,
    ensures
        listing(
            Volume { image: saved_in(d, l, location, name, data).0, layout: Some(l) },
            other,
        ) == listing(Volume { image: d, layout: Some(l) }, other),
{
    let target = short_name(name);
    let q = lemma_slot(d, l, location, target);
    let (d1, r) = slot_for(d, l, location, target);
    let (lba, off, existing) = r->Ok_0;
    let old = old_clusters(d1, l, existing);
    assert(old == replaced_clusters(d, l, location, name));
    assert forall|c: int| #[trigger] old.contains(c) implies !dir_clusters(d1, l, location).contains(c) by {}
    lemma_dir_safe(d1, l, location, old, q / 16);
    lemma_saved_spares(d1, l, lba, off, existing, target, data);
    let d3 = saved_in(d, l, location, name, data).0;
    let cs = dir_clusters(d, l, other);
    let dir = dir_sectors(d, l, other);
    assert forall|c: int| cs.contains(c) implies #[trigger] fat_get(d3, l, c) == fat_get(d, l, c) by {
        let i = choose|i: int| 0 <= i < cs.len() && cs[i] == c;
        assert(linked_at(d, l, cs, i));
        assert(is_cluster(l, cs[i]));
        assert(spared(d, l, dir_clusters(d, l, location), c));
        assert(fat_get(d1, l, c) == fat_get(d, l, c));
        assert(spared(d1, l, old, c));
    }
    lemma_dir_same(d, d3, l, other);
    assert forall|i: int| 0 <= i < dir.len() implies sector(d3, #[trigger] dir[i]) == sector(d, dir[i]) by {
        lemma_other_sector(d, l, location, name, other, q, i);
    }
    lemma_listed_sectors_same(d, d3, crate::volume::fresh_listing(), dir);
}

/// A sector of another directory is not touched.
proof fn lemma_other_sector(
    d: Image,
    l: Layout,
    location: DirLocation,
    name: Seq<u8>,
    other: DirLocation,
    q: int,
    i: int,
)
    requires
        image_ok(d),
        proper(l),
        links_ok(d, l),
        sound_dir(d, l, location),
        apart(d, l, other, location, replaced_clusters(d, l, location, name)),
        slot_for(d, l, location, short_name(name)).1 is Ok,
        0 <= i < dir_sectors(d, l, other).len(),
        ({
            let (d1, r) = slot_for(d, l, location, short_name(name));
            let (lba, off, e) = r->Ok_0;
            &&& sound_dir(d1, l, location)
            &&& good_slot(d1, l, location, short_name(name), lba, off, e, q)
            &&& e is Some ==> d1 == d
            &&& forall|c: int|
                #[trigger] dir_clusters(d1, l, location).contains(c) ==> dir_clusters(d, l, location).contains(c)
                    || fat_get(d, l, c) == Some(0u16)
            &&& forall|c: int|
                is_cluster(l, c) && spared(d, l, dir_clusters(d, l, location), c) ==> #[trigger] fat_get(d1, l, c)
                    == fat_get(d, l, c)
            &&& forall|x: int| safe_sector(d, l, Seq::empty(), x) ==> #[trigger] sector(d1, x) == sector(d, x)
        }),
    ensures
        ({
            let (d1, r) = slot_for(d, l, location, short_name(name));
            let (lba, off, e) = r->Ok_0;
            let x = dir_sectors(d, l, other)[i];
            x != lba && safe_sector(d1, l, old_clusters(d1, l, e), x) && sector(d1, x) == sector(d, x)
        }),
{
    let (d1, r) = slot_for(d, l, location, short_name(name));
    let (lba, off, e) = r->Ok_0;
    let old = old_clusters(d1, l, e);
    let x = dir_sectors(d, l, other)[i];
    let none = Seq::<int>::empty();
    lemma_dir_safe(d, l, other, none, i);
    match other {
        DirLocation::Root => {
            assert forall|c: int| is_cluster(l, c) && !spared(d1, l, old, c) implies !#[trigger] in_cluster(
                l,
                c,
                x,
            ) by {
                lemma_cluster_in_data(l, c);
            }
        },
        DirLocation::Cluster(b) => {
            let cs = dir_clusters(d, l, other);
            assert(cs[0] == b);
            lemma_dir_sectors(d, l, b, cs);
            lemma_spread_index(l, cs, i);
            let j = i / (l.sectors_per_cluster as int);
            let own = cs[j];
            assert(is_cluster(l, own));
            assert(linked_at(d, l, cs, j));
            assert(cs.contains(own));
            assert(spared(d, l, dir_clusters(d, l, location), own));
            assert(fat_get(d1, l, own) == fat_get(d, l, own));
            lemma_cluster_in_data(l, own);
            assert forall|c: int| is_cluster(l, c) && !spared(d1, l, old, c) implies !#[trigger] in_cluster(
                l,
                c,
                x,
            ) by {
                if in_cluster(l, c, x) {
                    lemma_clusters_apart(l, c, own, x);
                }
            }
        },
    }
    // The slot is elsewhere.
    let dir = dir_sectors(d1, l, location);
    match location {
        DirLocation::Root => {},
        DirLocation::Cluster(b) => {
            let ds = dir_clusters(d1, l, location);
            assert(ds[0] == b);
            lemma_dir_sectors(d1, l, b, ds);
            lemma_spread_index(l, ds, q / 16);
            let own = ds[q / 16 / (l.sectors_per_cluster as int)];
            assert(is_cluster(l, own));
            assert(ds.contains(own));
            lemma_cluster_in_data(l, own);
            assert(in_cluster(l, own, lba));
            if x == lba {
                if let DirLocation::Cluster(o) = other {
                    let cs = dir_clusters(d, l, other);
                    lemma_spread_index(l, cs, i);
                    let mine = cs[i / (l.sectors_per_cluster as int)];
                    lemma_clusters_apart(l, mine, own, x);
                    assert(cs.contains(mine));
                    assert(linked_at(d, l, cs, i / (l.sectors_per_cluster as int)));
                }
            }
        },
    }
    if location is Root {
        if let DirLocation::Cluster(o) = other {
            let cs = dir_clusters(d, l, other);
            lemma_spread_index(l, cs, i);
            let mine = cs[i / (l.sectors_per_cluster as int)];
            assert(is_cluster(l, mine));
            lemma_cluster_in_data(l, mine);
        }
    }
}

// ---- Paths ----

/// The directories that walking along a path looks something up in.
pub open spec fn looked_in(v: Volume, at: Place, parts: Seq<Seq<u8>>) -> Seq<DirLocation>
    decreases parts.len(),
{
    if parts.len() == 0 {
        Seq::empty()
    } else {
        let here = if parts[0] == seq![0x2Eu8] || parts[0] == seq![0x2Eu8, 0x2Eu8] {
            Seq::empty()
        } else {
            seq![at.location]
        };
        match stepped(v, at, parts[0]) {
            Ok(p) => here + looked_in(v, p, parts.drop_first()),
            Err(_) => here,
        }
    }
}

/// Where a path starts.
pub open spec fn start_of(at: Place, path: Seq<u8>) -> Place {
    if path.len() > 0 && path[0] == 0x2F {
        root_place()
    } else {
        at
    }
}

proof fn lemma_walk_same(v: Volume, v1: Volume, at: Place, parts: Seq<Seq<u8>>)
    requires
        forall|i: int|
            0 <= i < looked_in(v, at, parts).len() ==> listing(v1, #[trigger] looked_in(v, at, parts)[i]) == listing(
                v,
                looked_in(v, at, parts)[i],
            ),
    ensures
        stepped_all(v1, at, parts) == stepped_all(v, at, parts),
    decreases parts.len(),
{
    if parts.len() > 0 {
        let all = looked_in(v, at, parts);
        if parts[0] != seq![0x2Eu8] && parts[0] != seq![0x2Eu8, 0x2Eu8] {
            assert(all[0] == at.location);
            assert(listing(v1, all[0]) == listing(v, all[0]));
        }
        assert(stepped(v1, at, parts[0]) == stepped(v, at, parts[0]));
        if let Ok(p) = stepped(v, at, parts[0]) {
            let rest = looked_in(v, p, parts.drop_first());
            let k = all.len() - rest.len();
            assert forall|i: int| 0 <= i < rest.len() implies listing(v1, #[trigger] rest[i]) == listing(v, rest[i]) by {
                assert(all[i + k] == rest[i]);
            }
            lemma_walk_same(v, v1, p, parts.drop_first());
        }
    }
}

/// Whether a file can be written at a path so that it is found there: its
/// directory is sound and has a clear slot for a name that can be stored as
/// it is, and the directories on the way share nothing with what is written.
pub open spec fn can_keep(d: Image, l: Layout, at: Place, path: Seq<u8>) -> bool {
    let v = Volume { image: d, layout: Some(l) };
    let (dir, name) = parent_and_name(path);
    &&& image_ok(d)
    &&& proper(l)
    &&& links_ok(d, l)
    &&& storable(name)
    &&& resolved(v, at, dir) matches Ok(location) && {
        &&& sound_dir(d, l, location)
        &&& slot_clear(d, l, location, name)
        &&& forall|i: int|
            0 <= i < looked_in(v, start_of(at, dir), components(dir)).len() ==> apart(
                d,
                l,
                #[trigger] looked_in(v, start_of(at, dir), components(dir))[i],
                location,
                replaced_clusters(d, l, location, name),
            )
    }
}

proof fn lemma_kept(d: Image, l: Layout, at: Place, path: Seq<u8>, data: Seq<u8>)
    requires
        can_keep(d, l, at, path),
        data.len() <= 0xFFFF_FFFF,
        saved(Volume { image: d, layout: Some(l) }, at, path, data).1 is Ok,
    ensures
        ({
            let v = Volume { image: d, layout: Some(l) };
            let v1 = Volume { image: saved(v, at, path, data).0, layout: Some(l) };
            let (dir, name) = parent_and_name(path);
            let location = resolved(v, at, dir)->Ok_0;
            &&& v1.image == saved_in(d, l, location, name, data).0
            &&& walked(v1, at, dir) == walked(v, at, dir)
            &&& found(v1, location, name) matches Ok(e) && !e.is_dir && e.size == data.len() && entry_content(
                v1.image,
                l,
                e,
            ) == Ok::<Seq<u8>, &'static str>(data)
        }),
{
    let v = Volume { image: d, layout: Some(l) };
    let (dir, name) = parent_and_name(path);
    let location = resolved(v, at, dir)->Ok_0;
    let v1 = Volume { image: saved(v, at, path, data).0, layout: Some(l) };
    lemma_written_in(d, l, location, name, data);
    let all = looked_in(v, start_of(at, dir), components(dir));
    assert forall|i: int| 0 <= i < all.len() implies listing(v1, #[trigger] all[i]) == listing(v, all[i]) by {
        law_other_directories_stay(d, l, location, name, data, all[i]);
    }
    lemma_walk_same(v, v1, start_of(at, dir), components(dir));
}

/// Reading a file back gives what was written, wherever it is, from whichever
/// directory, and whether it is new or replaces another.
pub proof fn law_write_then_read(d: Image, l: Layout, at: Place, path: Seq<u8>, data: Seq<u8>)
    requires
        can_keep(d, l, at, path),
        data.len() <= 0xFFFF_FFFF,
        saved(Volume { image: d, layout: Some(l) }, at, path, data).1 is Ok,
    ensures
        content(
            (Volume { image: saved(Volume { image: d, layout: Some(l) }, at, path, data).0, layout: Some(l) }),
            at,
            path,
        ) == Ok::<Seq<u8>, &'static str>(data),
{
    lemma_kept(d, l, at, path, data);
}

/// A path's components are those of its directory, and its name.
pub(crate) proof fn lemma_components(dir: Seq<u8>, name: Seq<u8>)
    requires
        name.len() > 0,
        forall|i: int| 0 <= i < name.len() ==> name[i] != 0x2F,
    ensures
        components(dir + seq![0x2Fu8] + name) == components(dir).push(name),
    decreases dir.len(),
{
    let tail = seq![0x2Fu8] + name;
    let path = dir + seq![0x2Fu8] + name;
    assert(path =~= dir + tail);
    lemma_until_slash(dir);
    lemma_until_slash(path);
    if dir.len() == 0 {
        assert(path =~= tail);
        assert(path.drop_first() =~= name);
        lemma_single(name);
        assert(components(dir) =~= Seq::empty());
        assert(components(path) =~= components(dir).push(name));
    } else if dir[0] == 0x2F {
        assert(path.drop_first() =~= dir.drop_first() + seq![0x2Fu8] + name);
        lemma_components(dir.drop_first(), name);
    } else {
        let n = until_slash(dir);
        assert(until_slash(path) == n) by {
            let m = until_slash(path);
            if m < n {
                assert(path[m] == dir[m]);
            } else if n < m {
                assert(path[n] == if n < dir.len() { dir[n] } else { tail[n - dir.len()] });
            }
        }
        assert(path.take(n) =~= dir.take(n));
        assert(path.skip(n) =~= dir.skip(n) + seq![0x2Fu8] + name);
        assert(n > 0);
        lemma_components(dir.skip(n), name);
        assert(components(path) =~= components(dir).push(name));
    }
}

pub(crate) proof fn lemma_single(name: Seq<u8>)
    requires
        name.len() > 0,
        forall|i: int| 0 <= i < name.len() ==> name[i] != 0x2F,
    ensures
        components(name) == seq![name],
{
    lemma_until_slash(name);
    let n = name.len() as int;
    assert(until_slash(name) == n);
    assert(name.take(n) =~= name);
    assert(name.skip(n) =~= Seq::empty());
    assert(components(Seq::<u8>::empty()) =~= Seq::empty());
    assert(components(name) =~= seq![name]);
}

pub(crate) proof fn lemma_steps_append(v: Volume, at: Place, parts: Seq<Seq<u8>>, name: Seq<u8>)
    ensures
        stepped_all(v, at, parts.push(name)) == match stepped_all(v, at, parts) {
            Ok(p) => stepped(v, p, name),
            Err(e) => Err(e),
        },
    decreases parts.len(),
{
    let all = parts.push(name);
    assert(all[0] == if parts.len() > 0 {
        parts[0]
    } else {
        name
    });
    if parts.len() == 0 {
        assert(all.drop_first() =~= Seq::empty());
        if let Ok(p) = stepped(v, at, name) {
            assert(stepped_all(v, p, Seq::empty()) == Ok::<Place, &'static str>(p));
        }
    } else {
        assert(all.drop_first() =~= parts.drop_first().push(name));
        if let Ok(p) = stepped(v, at, parts[0]) {
            lemma_steps_append(v, p, parts.drop_first(), name);
        }
    }
}

/// Walking to a path is walking to its directory, and one step more.
pub(crate) proof fn lemma_last_step(v: Volume, at: Place, path: Seq<u8>)
    requires
        parent_and_name(path).1.len() > 0,
    ensures
        walked(v, at, path) == match walked(v, at, parent_and_name(path).0) {
            Ok(p) => stepped(v, p, parent_and_name(path).1),
            Err(e) => Err(e),
        },
{
    let (dir, name) = parent_and_name(path);
    lemma_last_index(path, 0x2F);
    match last_index(path, 0x2F) {
        None => {
            lemma_single(path);
            assert(components(dir) =~= Seq::empty());
            assert(components(path) =~= components(dir).push(name));
        },
        Some(i) => {
            assert forall|j: int| 0 <= j < name.len() implies name[j] != 0x2F by {
                assert(name[j] == path[i + 1 + j]);
            }
            lemma_components(path.take(i), name);
            assert(path =~= path.take(i) + seq![0x2Fu8] + name);
            if i == 0 {
                assert(path.take(0) =~= Seq::empty());
                assert(dir.drop_first() =~= Seq::empty());
                assert(components(dir) =~= components(path.take(0)));
            }
            assert(path[0] == 0x2F <==> dir.len() > 0 && dir[0] == 0x2F);
        },
    }
    lemma_steps_append(v, start_of(at, path), components(dir), name);
}

/// After a file has been written, asking for its status gives a file of the
/// length written.
pub proof fn law_write_then_stat(d: Image, l: Layout, at: Place, path: Seq<u8>, data: Seq<u8>)
    requires
        can_keep(d, l, at, path),
        data.len() <= 0xFFFF_FFFF,
        saved(Volume { image: d, layout: Some(l) }, at, path, data).1 is Ok,
    ensures
        status(
            (Volume { image: saved(Volume { image: d, layout: Some(l) }, at, path, data).0, layout: Some(l) }),
            at,
            path,
        ) == Ok::<(bool, u32), &'static str>((false, data.len() as u32)),
{
    lemma_kept(d, l, at, path, data);
    let v1 = Volume { image: saved(Volume { image: d, layout: Some(l) }, at, path, data).0, layout: Some(l) };
    lemma_storable_not_dots(parent_and_name(path).1);
    lemma_last_step(v1, at, path);
}

// ---- Other files ----

proof fn lemma_read_sectors_same(d: Image, d1: Image, lba: int, n: int, size: int, data: Seq<u8>)
    requires
        forall|x: int| lba <= x < lba + n ==> #[trigger] sector(d1, x) == sector(d, x),
    ensures
        read_sectors(d1, lba, n, size, data) == read_sectors(d, lba, n, size, data),
    decreases n,
{
    if n > 0 {
        assert(sector(d1, lba) == sector(d, lba));
        if let Ok(s) = sector(d, lba) {
            lemma_read_sectors_same(d, d1, lba + 1, n - 1, size, data + s.take(min(size - data.len(), 512)));
        }
    }
}

proof fn lemma_read_chain_same(d: Image, d1: Image, l: Layout, cs: Seq<int>, i: int, size: int, data: Seq<u8>, left: nat)
    requires
        proper(l),
        whole(d, l, cs),
        0 <= i < cs.len(),
        forall|c: int| cs.contains(c) ==> #[trigger] fat_get(d1, l, c) == fat_get(d, l, c),
        forall|c: int, x: int| cs.contains(c) && #[trigger] in_cluster(l, c, x) ==> sector(d1, x) == sector(d, x),
    ensures
        read_chain(d1, l, cs[i], size, data, left) == read_chain(d, l, cs[i], size, data, left),
    decreases left,
{
    let c = cs[i];
    assert(cs.contains(c));
    assert(linked_at(d, l, cs, i));
    assert(is_cluster(l, c));
    let lba = cluster_lba(l, c);
    let n = l.sectors_per_cluster as int;
    assert forall|x: int| lba <= x < lba + n implies #[trigger] sector(d1, x) == sector(d, x) by {
        assert(in_cluster(l, c, x));
    }
    lemma_read_sectors_same(d, d1, lba, n, size, data);
    reveal_with_fuel(read_chain, 2);
    if data.len() < size && left > 0 && i + 1 < cs.len() {
        if let Ok(more) = read_sectors(d, lba, n, size, data) {
            lemma_read_chain_same(d, d1, l, cs, i + 1, size, more, (left - 1) as nat);
        }
    }
}

/// Writing a file leaves the contents of every other file as they were: of
/// one whose clusters are a chain that neither the directory nor the file
/// that is replaced has a part in.
#[verifier::spinoff_prover]
#[verifier::rlimit(60)]
pub proof fn law_other_files_stay(
    d: Image,
    l: Layout,
    location: DirLocation,
    name: Seq<u8>,
    data: Seq<u8>,
    e: Entry,
)
    requires
        image_ok(d),
        proper(l),
        links_ok(d, l),
        sound_dir(d, l, location),
        slot_clear(d, l, location, name),
        saved_in(d, l, location, name, data).1 is Ok,
        in_chain(e.cluster as int) ==> {
            let cs = chain_clusters(d, l, e.cluster as int, MAX_CHAIN as nat);
            &&& whole(d, l, cs)
            &&& forall|c: int|
                #[trigger] cs.contains(c) ==> !dir_clusters(d, l, location).contains(c) && !replaced_clusters(
                    d,
                    l,
                    location,
                    name,
                ).contains(c)
        },
    ensures
        entry_content(saved_in(d, l, location, name, data).0, l, e) == entry_content(d, l, e),
{
    if in_chain(e.cluster as int) {
        let target = short_name(name);
        let q = lemma_slot(d, l, location, target);
        let (d1, r) = slot_for(d, l, location, target);
        let (lba, off, existing) = r->Ok_0;
        let old = old_clusters(d1, l, existing);
        assert(old == replaced_clusters(d, l, location, name));
        assert forall|c: int| #[trigger] old.contains(c) implies !dir_clusters(d1, l, location).contains(c) by {}
        lemma_dir_safe(d1, l, location, old, q / 16);
        lemma_saved_spares(d1, l, lba, off, existing, target, data);
        let d3 = saved_in(d, l, location, name, data).0;
        let cs = chain_clusters(d, l, e.cluster as int, MAX_CHAIN as nat);
        assert(cs[0] == e.cluster);
        assert forall|c: int| cs.contains(c) implies #[trigger] fat_get(d3, l, c) == fat_get(d, l, c) && is_cluster(
            l,
            c,
        ) && spared(d, l, dir_clusters(d, l, location), c) && spared(d1, l, old, c) by {
            let i = choose|i: int| 0 <= i < cs.len() && cs[i] == c;
            assert(linked_at(d, l, cs, i));
            assert(is_cluster(l, cs[i]));
            assert(spared(d, l, dir_clusters(d, l, location), c));
            assert(fat_get(d1, l, c) == fat_get(d, l, c));
            assert(spared(d1, l, old, c));
        }
        assert forall|c: int, x: int| cs.contains(c) && #[trigger] in_cluster(l, c, x) implies sector(d3, x) == sector(
            d,
            x,
        ) by {
            assert(fat_get(d3, l, c) == fat_get(d, l, c));
            lemma_file_sector(d, l, location, name, q, c, x);
        }
        lemma_read_chain_same(d, d3, l, cs, 0, e.size as int, Seq::empty(), chain_budget(e.size as int));
    }
}

/// A sector of a cluster that is spared is not touched.
proof fn lemma_file_sector(d: Image, l: Layout, location: DirLocation, name: Seq<u8>, q: int, c: int, x: int)
    requires
        image_ok(d),
        proper(l),
        sound_dir(d, l, location),
        slot_for(d, l, location, short_name(name)).1 is Ok,
        is_cluster(l, c),
        in_cluster(l, c, x),
        spared(d, l, dir_clusters(d, l, location), c),
        ({
            let (d1, r) = slot_for(d, l, location, short_name(name));
            let (lba, off, e) = r->Ok_0;
            &&& spared(d1, l, old_clusters(d1, l, e), c)
            &&& sound_dir(d1, l, location)
            &&& good_slot(d1, l, location, short_name(name), lba, off, e, q)
            &&& forall|b: int|
                #[trigger] dir_clusters(d1, l, location).contains(b) ==> dir_clusters(d, l, location).contains(b)
                    || fat_get(d, l, b) == Some(0u16)
            &&& forall|y: int| safe_sector(d, l, Seq::empty(), y) ==> #[trigger] sector(d1, y) == sector(d, y)
        }),
    ensures
        ({
            let (d1, r) = slot_for(d, l, location, short_name(name));
            let (lba, off, e) = r->Ok_0;
            x != lba && safe_sector(d1, l, old_clusters(d1, l, e), x) && sector(d1, x) == sector(d, x)
        }),
{
    let (d1, r) = slot_for(d, l, location, short_name(name));
    let (lba, off, e) = r->Ok_0;
    let old = old_clusters(d1, l, e);
    lemma_cluster_in_data(l, c);
    assert forall|b: int| is_cluster(l, b) && !spared(d1, l, old, b) implies !#[trigger] in_cluster(l, b, x) by {
        if in_cluster(l, b, x) {
            lemma_clusters_apart(l, b, c, x);
        }
    }
    assert forall|b: int| is_cluster(l, b) && !spared(d, l, Seq::empty(), b) implies !#[trigger] in_cluster(
        l,
        b,
        x,
    ) by {
        if in_cluster(l, b, x) {
            lemma_clusters_apart(l, b, c, x);
        }
    }
    match location {
        DirLocation::Root => {},
        DirLocation::Cluster(b) => {
            let ds = dir_clusters(d1, l, location);
            assert(ds[0] == b);
            lemma_dir_sectors(d1, l, b, ds);
            lemma_spread_index(l, ds, q / 16);
            let own = ds[q / 16 / (l.sectors_per_cluster as int)];
            assert(ds.contains(own));
            assert(in_cluster(l, own, lba));
            if x == lba {
                lemma_clusters_apart(l, c, own, x);
            }
        },
    }
}

// ---- What a directory shows after a write ----

/// Whether nothing stands after the end mark of a directory: a record after a
/// free one is free.
pub open spec fn ended(d: Image, l: Layout, location: DirLocation) -> bool {
    let dir = dir_sectors(d, l, location);
    forall|p: int|
        0 <= p && p + 1 < 16 * dir.len() && (#[trigger] record_at(d, dir, p))[0] == ENTRY_FREE ==> record_at(
            d,
            dir,
            p + 1,
        )[0] == ENTRY_FREE
}

proof fn lemma_listed_prefix(d: Image, d1: Image, dir: Seq<int>, grown: Seq<int>, p: int)
    requires
        dir.len() <= grown.len(),
        forall|i: int| 0 <= i < dir.len() ==> #[trigger] grown[i] == dir[i],
        forall|i: int| 0 <= i < dir.len() ==> sector(d1, #[trigger] dir[i]) == sector(d, dir[i]),
        0 <= p <= 16 * dir.len(),
    ensures
        listed_to(d1, grown, p) == listed_to(d, dir, p),
    decreases p,
{
    if p > 0 {
        lemma_listed_prefix(d, d1, dir, grown, p - 1);
        let i = (p - 1) / 16;
        assert(grown[i] == dir[i]);
        assert(sector(d1, dir[i]) == sector(d, dir[i]));
    }
}

/// The slot that a name gets leaves the directory's listing as it was.
#[verifier::spinoff_prover]
#[verifier::rlimit(40)]
proof fn lemma_slot_listing(d: Image, l: Layout, location: DirLocation, target: Seq<u8>)
    requires
        image_ok(d),
        proper(l),
        links_ok(d, l),
        sound_dir(d, l, location),
        ended(d, l, location),
        slot_for(d, l, location, target).1 is Ok,
    ensures
        ended(slot_for(d, l, location, target).0, l, location),
        listing(Volume { image: slot_for(d, l, location, target).0, layout: Some(l) }, location) == listing(
            Volume { image: d, layout: Some(l) },
            location,
        ),
{
    let (d1, r) = slot_for(d, l, location, target);
    let dir = dir_sectors(d, l, location);
    if let DirLocation::Cluster(c) = location {
        let cs = dir_clusters(d, l, location);
        assert(cs[0] == c);
        lemma_dir_sectors(d, l, c, cs);
        lemma_chain_short(l, cs);
        assert(0 * l.sectors_per_cluster == 0);
        assert(search_ok(d, dir, target, 0, Search::On(None)));
        lemma_search_chain(d, l, cs, target, 0, MAX_CHAIN as nat, Search::On(None));
        let (x, last) = searched_chain(d, l, Search::On(None), target, c as int, MAX_CHAIN as nat);
        if x == Search::On(None) {
            lemma_extended(d, l, cs);
            lemma_grown(d, l, cs);
            let n = extended(d, l, last).1->Ok_0;
            let more = cs.push(n);
            assert(more[0] == c);
            lemma_dir_sectors(d1, l, c, more);
            let grown = spread(l, more);
            let q = 16 * dir.len() as int;
            assert forall|p: int| q <= p < 16 * grown.len() implies (#[trigger] record_at(d1, grown, p))[0]
                == ENTRY_FREE by {
                assert(sector(d1, grown[p / 16]) == Ok::<Seq<u8>, &'static str>(block(Seq::empty(), 0)));
            }
            assert forall|p: int| 0 <= p < q implies (#[trigger] record_at(d1, grown, p))[0] != ENTRY_FREE by {
                assert(grown[p / 16] == dir[p / 16]);
                assert(sector(d1, dir[p / 16]) == sector(d, dir[p / 16]));
                assert(record_at(d, dir, p)[0] != ENTRY_FREE);
            }
            assert(ended(d1, l, location)) by {
                assert forall|p: int|
                    0 <= p && p + 1 < 16 * grown.len() && (#[trigger] record_at(d1, grown, p))[0]
                        == ENTRY_FREE implies record_at(d1, grown, p + 1)[0] == ENTRY_FREE by {
                    assert(q <= p);
                }
            }
            lemma_listed_prefix(d, d1, dir, grown, q);
            assert(no_end(d, dir, q));
            lemma_not_done(d, dir, q);
            assert(record_at(d1, grown, q)[0] == ENTRY_FREE);
            assert(listed_to(d1, grown, q + 1).done);
            lemma_done_stays(d1, grown, q + 1, 16 * grown.len() as int);
            assert(dir.skip(0) =~= dir);
            assert(grown.skip(0) =~= grown);
            lemma_listing(d, dir, 0);
            lemma_listing(d1, grown, 0);
        }
    }
}

/// Two directories that agree but for one entry up to a record still do
/// later, if their later records agree.
proof fn lemma_listed_but_one(d: Image, d1: Image, dir: Seq<int>, q: int, i: int, p: int)
    requires
        0 <= q < p,
        forall|j: int| q < j < p ==> #[trigger] record_at(d1, dir, j) == record_at(d, dir, j),
        listed_to(d, dir, q + 1).parts == listed_to(d1, dir, q + 1).parts,
        listed_to(d, dir, q + 1).done == listed_to(d1, dir, q + 1).done,
        0 <= i < listed_to(d, dir, q + 1).entries.len(),
        listed_to(d1, dir, q + 1).entries.len() == listed_to(d, dir, q + 1).entries.len(),
        listed_to(d1, dir, q + 1).entries.remove(i) == listed_to(d, dir, q + 1).entries.remove(i),
    ensures
        listed_to(d, dir, p).parts == listed_to(d1, dir, p).parts,
        listed_to(d, dir, p).done == listed_to(d1, dir, p).done,
        0 <= i < listed_to(d, dir, p).entries.len(),
        listed_to(d1, dir, p).entries.len() == listed_to(d, dir, p).entries.len(),
        listed_to(d1, dir, p).entries.remove(i) == listed_to(d, dir, p).entries.remove(i),
    decreases p,
{
    if q + 1 < p {
        lemma_listed_but_one(d, d1, dir, q, i, p - 1);
        assert(record_at(d1, dir, p - 1) == record_at(d, dir, p - 1));
        let a = listed_to(d, dir, p - 1).entries;
        let b = listed_to(d, dir, p).entries;
        let a1 = listed_to(d1, dir, p - 1).entries;
        let b1 = listed_to(d1, dir, p).entries;
        if b.len() > a.len() {
            assert(b =~= a.push(b.last()));
            assert(b1 =~= a1.push(b.last()));
            assert(b.remove(i) =~= a.remove(i).push(b.last()));
            assert(b1.remove(i) =~= a1.remove(i).push(b.last()));
        }
    }
}

/// Whether a listing differs from an earlier one by the entry at `i` alone:
/// it is new, or stands where the one that it replaces stood.
pub open spec fn differs_at(before: Seq<Entry>, after: Seq<Entry>, i: int, replaced: bool) -> bool {
    &&& 0 <= i < after.len()
    &&& after.remove(i) == if replaced {
        before.remove(i)
    } else {
        before
    }
    &&& replaced ==> before.len() == after.len()
}

/// Whether the file at `i` of a listing is all in which it differs from an
/// earlier one, and if no other entry is shown under its name, is shown under
/// it once.
pub open spec fn listed_once(
    before: Seq<Entry>,
    after: Seq<Entry>,
    i: int,
    replaced: bool,
    name: Seq<u8>,
    size: int,
) -> bool {
    let others = after.remove(i);
    &&& differs_at(before, after, i, replaced)
    &&& after[i].name == short_text(short_name(name))
    &&& !after[i].is_dir
    &&& after[i].size == size
    &&& (forall|j: int| 0 <= j < others.len() ==> !same_name((#[trigger] others[j]).name, name)) ==> (forall|j: int|
        0 <= j < after.len() ==> (same_name((#[trigger] after[j]).name, name) <==> j == i))
}

/// A directory in which one record was replaced by that of a file shows the
/// entries that it showed, and the file once.
#[verifier::spinoff_prover]
#[verifier::rlimit(40)]
proof fn lemma_put(d: Image, d3: Image, dir: Seq<int>, q: int, target: Seq<u8>, first: int, len: int, old: Option<Entry>)
    requires
        image_ok(d),
        readable(d, dir),
        dir.no_duplicates(),
        target.len() == 11,
        target[0] != ENTRY_FREE,
        target[0] != ENTRY_DELETED,
        target[0] != ENTRY_DOT,
        0 <= first < 0x1_0000,
        0 <= len < 0x1_0000_0000,
        0 <= q < 16 * dir.len(),
        no_end(d, dir, q),
        listed_to(d, dir, q).parts.len() == 0,
        old is None ==> record_at(d, dir, q)[0] == ENTRY_FREE || record_at(d, dir, q)[0] == ENTRY_DELETED,
        old matches Some(x) ==> shows(record_at(d, dir, q), x) && record_at(d, dir, q).subrange(0, 11) == target,
        record_at(d, dir, q)[0] == ENTRY_FREE && q + 1 < 16 * dir.len() ==> record_at(d, dir, q + 1)[0]
            == ENTRY_FREE,
        forall|i: int|
            0 <= i < dir.len() ==> sector(d3, #[trigger] dir[i]) == if i == q / 16 {
                Ok::<Seq<u8>, &'static str>(splice(sector(d, dir[i])->Ok_0, 32 * (q % 16), file_record(target, first, len)))
            } else {
                sector(d, dir[i])
            },
    ensures
        ({
            let n = 16 * dir.len() as int;
            let i = listed_to(d, dir, q).entries.len() as int;
            let after = listed_to(d3, dir, n).entries;
            &&& differs_at(listed_to(d, dir, n).entries, after, i, old is Some)
            &&& old is Some ==> listed_to(d, dir, n).entries[i].name == short_text(target)
            &&& after[i] == (Entry {
                name: short_text(target),
                is_dir: false,
                size: len as u32,
                cluster: first as u32,
            })
            &&& readable(d3, dir)
        }),
{
    let rec = file_record(target, first, len);
    let e = Entry { name: short_text(target), is_dir: false, size: len as u32, cluster: first as u32 };
    lemma_file_record(target, first, len);
    lemma_no_attributes();
    lemma_replaced(d, d3, dir, q, rec);
    assert(sector(d, dir[q / 16]) is Ok);
    let was = record_at(d, dir, q);
    assert(was.len() == 32);
    assert(splice(was, 0, rec) =~= rec);
    lemma_listed_same(d, d3, dir, q);
    lemma_not_done(d, dir, q);
    let x = listed_to(d, dir, q);
    let y = listed_to(d, dir, q + 1);
    let z = listed_to(d3, dir, q + 1);
    let i = x.entries.len() as int;
    let n = 16 * dir.len() as int;
    assert(z.entries =~= x.entries.push(e));
    assert(z.entries.remove(i) =~= x.entries);
    lemma_listed_grows(d3, dir, q + 1, n);
    let all = listed_to(d3, dir, n).entries;
    assert(all.take(i + 1)[i] == all[i]);
    if old is Some {
        lemma_lfn_is_volume(was[11]);
        assert(y.entries.len() == i + 1);
        assert(y.entries.remove(i) =~= x.entries);
        assert(y.parts =~= z.parts);
        lemma_listed_but_one(d, d3, dir, q, i, n);
        lemma_listed_grows(d, dir, q + 1, n);
        let all = listed_to(d, dir, n).entries;
        assert(all.take(i + 1)[i] == all[i]);
        assert(y.entries[i] == entry_of(was));
    } else if was[0] == ENTRY_DELETED {
        assert(y.entries == x.entries);
        assert(y.parts =~= z.parts);
        lemma_listed_without(d3, d, dir, q, i, n);
    } else {
        assert(y.done);
        lemma_done_stays(d, dir, q + 1, n);
        if q + 1 < n {
            assert(record_at(d3, dir, q + 1) == record_at(d, dir, q + 1));
            assert(listed_to(d3, dir, q + 2).done);
            lemma_done_stays(d3, dir, q + 2, n);
        }
        assert(all == z.entries);
    }
}

proof fn lemma_once(before: Seq<Entry>, after: Seq<Entry>, i: int, replaced: bool, name: Seq<u8>, size: int)
    requires
        differs_at(before, after, i, replaced),
        after[i].name == short_text(short_name(name)),
        !after[i].is_dir,
        after[i].size == size,
        storable(name),
    ensures
        listed_once(before, after, i, replaced, name, size),
{
    let rest = after.remove(i);
    if forall|j: int| 0 <= j < rest.len() ==> !same_name((#[trigger] rest[j]).name, name) {
        assert forall|j: int| 0 <= j < after.len() implies (same_name((#[trigger] after[j]).name, name) <==> j == i) by {
            if j < i {
                assert(rest[j] == after[j]);
            } else if j > i {
                assert(rest[j - 1] == after[j]);
            }
        }
    }
}

/// The listing of a directory before and after a file is written in it.
#[verifier::spinoff_prover]
#[verifier::rlimit(60)]
proof fn lemma_written_listing(d: Image, l: Layout, location: DirLocation, name: Seq<u8>, data: Seq<u8>) -> (r: (
    Seq<Entry>,
    Seq<Entry>,
    int,
))
    requires
        image_ok(d),
        proper(l),
        links_ok(d, l),
        sound_dir(d, l, location),
        ended(d, l, location),
        storable(name),
        slot_clear(d, l, location, name),
        data.len() <= 0xFFFF_FFFF,
        saved_in(d, l, location, name, data).1 is Ok,
    ensures
        ({
            let (before, after, i) = r;
            let v3 = Volume { image: saved_in(d, l, location, name, data).0, layout: Some(l) };
            let replaced = slot_for(d, l, location, short_name(name)).1->Ok_0.2 is Some;
            &&& listing(Volume { image: d, layout: Some(l) }, location) == Ok::<Seq<Entry>, &'static str>(before)
            &&& listing(v3, location) == Ok::<Seq<Entry>, &'static str>(after)
            &&& differs_at(before, after, i, replaced)
            &&& replaced ==> before[i].name == short_text(short_name(name))
            &&& after[i].name == short_text(short_name(name))
            &&& !after[i].is_dir
            &&& after[i].size == data.len()
        }),
{
    let target = short_name(name);
    let (q, first) = lemma_written_slot(d, l, location, name, data);
    lemma_slot_listing(d, l, location, target);
    let (d1, r) = slot_for(d, l, location, target);
    let existing = r->Ok_0.2;
    let dir = dir_sectors(d1, l, location);
    let d3 = saved_in(d, l, location, name, data).0;
    lemma_put(d1, d3, dir, q, target, first, data.len() as int, existing);
    let n = 16 * dir.len() as int;
    assert(dir.skip(0) =~= dir);
    lemma_listing(d1, dir, 0);
    lemma_listing(d3, dir, 0);
    (listed_to(d1, dir, n).entries, listed_to(d3, dir, n).entries, listed_to(d1, dir, q).entries.len() as int)
}

/// Writing a file changes the listing of its directory in the entry of its
/// name alone, which is new or stands where the one that it replaces stood.
/// A name that no other entry is shown under is then listed exactly once.
pub proof fn law_written_name_is_listed_once(
    d: Image,
    l: Layout,
    location: DirLocation,
    name: Seq<u8>,
    data: Seq<u8>,
)
    requires
        image_ok(d),
        proper(l),
        links_ok(d, l),
        sound_dir(d, l, location),
        ended(d, l, location),
        storable(name),
        slot_clear(d, l, location, name),
        data.len() <= 0xFFFF_FFFF,
        saved_in(d, l, location, name, data).1 is Ok,
    ensures
        ({
            let before = listing(Volume { image: d, layout: Some(l) }, location)->Ok_0;
            let v3 = Volume { image: saved_in(d, l, location, name, data).0, layout: Some(l) };
            let after = listing(v3, location)->Ok_0;
            let replaced = slot_for(d, l, location, short_name(name)).1->Ok_0.2 is Some;
            &&& listing(Volume { image: d, layout: Some(l) }, location) is Ok
            &&& listing(v3, location) is Ok
            &&& exists|i: int| #[trigger] listed_once(before, after, i, replaced, name, data.len() as int)
        }),
{
    let (before, after, i) = lemma_written_listing(d, l, location, name, data);
    let replaced = slot_for(d, l, location, short_name(name)).1->Ok_0.2 is Some;
    lemma_once(before, after, i, replaced, name, data.len() as int);
    let v = Volume { image: d, layout: Some(l) };
    let v3 = Volume { image: saved_in(d, l, location, name, data).0, layout: Some(l) };
    assert(listing(v, location)->Ok_0 == before);
    assert(listing(v3, location)->Ok_0 == after);
    assert(listed_once(
        listing(v, location)->Ok_0,
        listing(v3, location)->Ok_0,
        i,
        replaced,
        name,
        data.len() as int,
    ));
}

/// No two entries of a listing have names that differ in case alone.
pub open spec fn distinct_names(entries: Seq<Entry>) -> bool {
    forall|i: int, j: int|
        0 <= i < entries.len() && 0 <= j < entries.len() && i != j ==> !same_name(
            (#[trigger] entries[i]).name,
            (#[trigger] entries[j]).name,
        )
}

proof fn lemma_not_named(entries: Seq<Entry>, name: Seq<u8>, i: int)
    requires
        first_named(entries, name) is None,
        0 <= i < entries.len(),
    ensures
        !same_name(entries[i].name, name),
    decreases entries.len(),
{
    if i > 0 {
        assert(entries[i] == entries.drop_first()[i - 1]);
        lemma_not_named(entries.drop_first(), name, i - 1);
    }
}

/// In a directory whose names are distinct, writing a file leaves them
/// distinct, and lists its name exactly once: whether it is new to the
/// listing, or replaces the file of that name.
pub proof fn law_written_names_stay_distinct(
    d: Image,
    l: Layout,
    location: DirLocation,
    name: Seq<u8>,
    data: Seq<u8>,
)
    requires
        image_ok(d),
        proper(l),
        links_ok(d, l),
        sound_dir(d, l, location),
        ended(d, l, location),
        storable(name),
        slot_clear(d, l, location, name),
        data.len() <= 0xFFFF_FFFF,
        saved_in(d, l, location, name, data).1 is Ok,
        listing(Volume { image: d, layout: Some(l) }, location) matches Ok(before) && distinct_names(before),
        slot_for(d, l, location, short_name(name)).1->Ok_0.2 is None ==> found(
            Volume { image: d, layout: Some(l) },
            location,
            name,
        ) is Err,
    ensures
        ({
            let v3 = Volume { image: saved_in(d, l, location, name, data).0, layout: Some(l) };
            let after = listing(v3, location)->Ok_0;
            &&& listing(v3, location) is Ok
            &&& distinct_names(after)
            &&& exists|i: int| #[trigger] only_named(after, name, i)
        }),
{
    let (before, after, i) = lemma_written_listing(d, l, location, name, data);
    let replaced = slot_for(d, l, location, short_name(name)).1->Ok_0.2 is Some;
    let others = after.remove(i);
    assert forall|k: int| 0 <= k < others.len() implies !same_name((#[trigger] others[k]).name, name) by {
        if replaced {
            let j = if k < i {
                k
            } else {
                k + 1
            };
            assert(before.remove(i)[k] == before[j]);
            assert(!same_name(before[j].name, before[i].name));
            if same_name(before[j].name, name) {
                lemma_same_name_through(before[j].name, name, before[i].name);
            }
        } else {
            lemma_not_named(before, name, k);
        }
    }
    assert forall|j: int| 0 <= j < after.len() && j != i implies !same_name((#[trigger] after[j]).name, name) by {
        assert(after[j] == others[if j < i {
            j
        } else {
            j - 1
        }]);
    }
    assert(only_named(after, name, i));
    assert forall|a: int, b: int| 0 <= a < after.len() && 0 <= b < after.len() && a != b implies !same_name(
        (#[trigger] after[a]).name,
        (#[trigger] after[b]).name,
    ) by {
        if a == i {
            if same_name(after[a].name, after[b].name) {
                lemma_same_name_through(after[b].name, after[a].name, name);
            }
        } else if b == i {
            if same_name(after[a].name, after[b].name) {
                lemma_same_name_through(after[a].name, after[b].name, name);
            }
        } else {
            let (x, y) = (if a < i {
                a
            } else {
                a - 1
            }, if b < i {
                b
            } else {
                b - 1
            });
            assert(after[a] == others[x] && after[b] == others[y]);
            if replaced {
                assert(before.remove(i)[x] == before[a] && before.remove(i)[y] == before[b]);
            }
        }
    }
    let v3 = Volume { image: saved_in(d, l, location, name, data).0, layout: Some(l) };
    assert(listing(v3, location)->Ok_0 == after);
    assert(only_named(listing(v3, location)->Ok_0, name, i));
}

/// Whether the entry at `i` is shown under a name, and no other one is.
pub open spec fn only_named(entries: Seq<Entry>, name: Seq<u8>, i: int) -> bool {
    &&& 0 <= i < entries.len()
    &&& same_name(entries[i].name, name)
    &&& forall|j: int| 0 <= j < entries.len() && j != i ==> !same_name((#[trigger] entries[j]).name, name)
}

proof fn lemma_same_name_through(a: Seq<u8>, b: Seq<u8>, c: Seq<u8>)
    requires
        same_name(a, b) || same_name(b, a),
        same_name(b, c) || same_name(c, b),
    ensures
        same_name(a, c),
{
    assert forall|i: int| 0 <= i < a.len() implies upper(#[trigger] a[i]) == upper(c[i]) by {
        assert(upper(a[i]) == upper(b[i]));
        assert(upper(b[i]) == upper(c[i]));
    }
}

// ---- Orderly directories ----

/// Whether a record is no part of a long name, and if it is shown, has the
/// short name of the text that it is shown under.
pub open spec fn plain_record(rec: Seq<u8>) -> bool {
    rec[0] != ENTRY_FREE && rec[0] != ENTRY_DELETED ==> rec[11] != ATTR_LFN && (rec[0] == ENTRY_DOT || rec[11]
        & ATTR_VOLUME_ID != 0 || rec.subrange(0, 11) == short_name(entry_of(rec).name))
}

/// A directory without long names, in which every file has a proper short
/// name.
pub open spec fn orderly(d: Image, l: Layout, location: DirLocation) -> bool {
    let dir = dir_sectors(d, l, location);
    forall|p: int| 0 <= p < 16 * dir.len() ==> plain_record(#[trigger] record_at(d, dir, p))
}

/// Names that differ in case alone have the same short name.
proof fn lemma_short_name_case(a: Seq<u8>, b: Seq<u8>)
    requires
        same_name(a, b),
    ensures
        short_name(a) == short_name(b),
{
    lemma_last_index(a, 0x2E);
    lemma_last_index(b, 0x2E);
    assert forall|i: int| 0 <= i < a.len() implies (#[trigger] a[i] == 0x2E <==> b[i] == 0x2E) by {
        assert(upper(a[i]) == upper(b[i]));
    }
    match (last_index(a, 0x2E), last_index(b, 0x2E)) {
        (Some(i), Some(j)) => {
            assert(a[i] == 0x2E && b[j] == 0x2E);
            assert(a[j] == 0x2E && b[i] == 0x2E);
            assert(i == j);
            assert forall|k: int| 0 <= k < i implies upper(#[trigger] a.take(i)[k]) == upper(b.take(i)[k]) by {
                assert(upper(a[k]) == upper(b[k]));
            }
            assert forall|k: int| 0 <= k < a.len() - i - 1 implies upper(#[trigger] a.skip(i + 1)[k]) == upper(
                b.skip(i + 1)[k],
            ) by {
                assert(upper(a[i + 1 + k]) == upper(b[i + 1 + k]));
            }
        },
        (Some(i), None) => {
            assert(a[i] == 0x2E);
            assert(b[i] == 0x2E);
        },
        (None, Some(j)) => {
            assert(b[j] == 0x2E);
            assert(a[j] == 0x2E);
        },
        (None, None) => {},
    }
    assert(short_name(a) =~= short_name(b));
}

/// What is listed before the slot of a name in an orderly directory has other
/// names.
proof fn lemma_plain_listed(d: Image, dir: Seq<int>, p: int, name: Seq<u8>)
    requires
        0 <= p,
        forall|j: int| 0 <= j < p ==> plain_record(#[trigger] record_at(d, dir, j)),
        none_matching(d, dir, short_name(name), p),
    ensures
        listed_to(d, dir, p).parts.len() == 0,
        forall|i: int|
            0 <= i < listed_to(d, dir, p).entries.len() ==> !same_name(
                (#[trigger] listed_to(d, dir, p).entries[i]).name,
                name,
            ),
    decreases p,
{
    if p > 0 {
        let rec = record_at(d, dir, p - 1);
        lemma_plain_listed(d, dir, p - 1, name);
        assert(plain_record(rec));
        assert(!matching(rec, short_name(name)));
        let x = listed_to(d, dir, p - 1);
        let y = listed_to(d, dir, p);
        if same_name(entry_of(rec).name, name) {
            lemma_short_name_case(entry_of(rec).name, name);
        }
        assert forall|i: int| 0 <= i < y.entries.len() implies !same_name((#[trigger] y.entries[i]).name, name) by {
            if i < x.entries.len() {
                assert(y.entries[i] == x.entries[i]);
            } else {
                assert(y.entries[i] == entry_of(rec));
            }
        }
    }
}

/// The slot that a name gets leaves the directory's records as they were, and
/// any that it adds are free.
#[verifier::spinoff_prover]
#[verifier::rlimit(40)]
proof fn lemma_slot_records(d: Image, l: Layout, location: DirLocation, target: Seq<u8>)
    requires
        image_ok(d),
        proper(l),
        links_ok(d, l),
        sound_dir(d, l, location),
        orderly(d, l, location),
        slot_for(d, l, location, target).1 is Ok,
    ensures
        orderly(slot_for(d, l, location, target).0, l, location),
{
    let (d1, r) = slot_for(d, l, location, target);
    let dir = dir_sectors(d, l, location);
    if let DirLocation::Cluster(c) = location {
        let cs = dir_clusters(d, l, location);
        assert(cs[0] == c);
        lemma_dir_sectors(d, l, c, cs);
        lemma_chain_short(l, cs);
        assert(0 * l.sectors_per_cluster == 0);
        assert(search_ok(d, dir, target, 0, Search::On(None)));
        lemma_search_chain(d, l, cs, target, 0, MAX_CHAIN as nat, Search::On(None));
        let (x, last) = searched_chain(d, l, Search::On(None), target, c as int, MAX_CHAIN as nat);
        if x == Search::On(None) {
            lemma_extended(d, l, cs);
            lemma_grown(d, l, cs);
            let n = extended(d, l, last).1->Ok_0;
            let more = cs.push(n);
            assert(more[0] == c);
            lemma_dir_sectors(d1, l, c, more);
            let grown = spread(l, more);
            let q = 16 * dir.len() as int;
            assert forall|p: int| 0 <= p < 16 * grown.len() implies plain_record(
                #[trigger] record_at(d1, grown, p),
            ) by {
                if p < q {
                    assert(grown[p / 16] == dir[p / 16]);
                    assert(sector(d1, dir[p / 16]) == sector(d, dir[p / 16]));
                    assert(plain_record(record_at(d, dir, p)));
                } else {
                    assert(sector(d1, grown[p / 16]) == Ok::<Seq<u8>, &'static str>(block(Seq::empty(), 0)));
                    assert(record_at(d1, grown, p)[0] == ENTRY_FREE);
                }
            }
        }
    }
}

/// In an orderly directory any name has a clear slot, as long as the clusters
/// of a file that it replaces are a file's: clusters of the data region, and
/// none of the directory's.
pub proof fn law_orderly_directories_are_clear(d: Image, l: Layout, location: DirLocation, name: Seq<u8>)
    requires
        image_ok(d),
        proper(l),
        links_ok(d, l),
        sound_dir(d, l, location),
        orderly(d, l, location),
        slot_for(d, l, location, short_name(name)).1 matches Ok((_, _, Some(e))) ==> in_chain(e.cluster as int)
            ==> is_cluster(l, e.cluster as int),
        forall|c: int|
            #[trigger] replaced_clusters(d, l, location, name).contains(c) ==> !dir_clusters(d, l, location).contains(c),
    ensures
        slot_clear(d, l, location, name),
{
    let target = short_name(name);
    let (d1, r) = slot_for(d, l, location, target);
    if let Ok((lba, off, existing)) = r {
        let q0 = lemma_slot(d, l, location, target);
        lemma_slot_records(d, l, location, target);
        lemma_dir_distinct(d1, l, location);
        let dir = dir_sectors(d1, l, location);
        assert forall|q: int| #[trigger] is_slot(d1, dir, lba, off, q) implies clear_slot(d1, dir, q, name) by {
            assert(is_slot(d1, dir, lba, off, q0));
            assert(dir[q / 16] == dir[q0 / 16]);
            assert(q == q0);
            lemma_plain_listed(d1, dir, q, name);
            lemma_none_named(listed_to(d1, dir, q).entries, name);
        }
        assert(replaced_clusters(d, l, location, name) == old_clusters(d, l, existing));
    }
}

/// Writing a file whose name can be stored keeps an orderly directory orderly.
pub proof fn law_writing_keeps_order(d: Image, l: Layout, location: DirLocation, name: Seq<u8>, data: Seq<u8>)
    requires
        image_ok(d),
        proper(l),
        links_ok(d, l),
        sound_dir(d, l, location),
        orderly(d, l, location),
        storable(name),
        slot_clear(d, l, location, name),
        data.len() <= 0xFFFF_FFFF,
        saved_in(d, l, location, name, data).1 is Ok,
    ensures
        orderly(saved_in(d, l, location, name, data).0, l, location),
{
    let target = short_name(name);
    let (q, first) = lemma_written_slot(d, l, location, name, data);
    lemma_slot_records(d, l, location, target);
    let d1 = slot_for(d, l, location, target).0;
    let d3 = saved_in(d, l, location, name, data).0;
    let dir = dir_sectors(d1, l, location);
    let rec = file_record(target, first, data.len() as int);
    lemma_file_record(target, first, data.len() as int);
    lemma_replaced(d1, d3, dir, q, rec);
    assert(sector(d1, dir[q / 16]) is Ok);
    assert(splice(record_at(d1, dir, q), 0, rec) =~= rec);
    assert(rec.subrange(0, 11) =~= target);
    lemma_short_name_case(short_text(target), name);
    assert(plain_record(rec));
    assert forall|p: int| 0 <= p < 16 * dir.len() implies plain_record(#[trigger] record_at(d3, dir, p)) by {
        if p != q {
            assert(record_at(d3, dir, p) == record_at(d1, dir, p));
        }
    }
}

/// Where a name gets a slot that no file has, no record that is listed has
/// its short name.
#[verifier::spinoff_prover]
#[verifier::rlimit(40)]
proof fn lemma_slot_absent(d: Image, l: Layout, location: DirLocation, target: Seq<u8>)
    requires
        image_ok(d),
        proper(l),
        sound_dir(d, l, location),
        slot_for(d, l, location, target).1 matches Ok((_, _, None)),
    ensures
        ({
            let dir = dir_sectors(d, l, location);
            let n = 16 * dir.len() as int;
            none_matching(d, dir, target, n) || ends_without(d, dir, target, n)
        }),
{
    let dir = dir_sectors(d, l, location);
    match location {
        DirLocation::Root => {
            let n = l.root_dir_sectors as int;
            assert(search_ok(d, dir, target, 0, Search::On(None)));
            lemma_search_part(d, dir, target, 0, l.root_dir_start_lba as int, n, Search::On(None));
        },
        DirLocation::Cluster(c) => {
            let cs = dir_clusters(d, l, location);
            assert(cs[0] == c);
            lemma_dir_sectors(d, l, c, cs);
            lemma_chain_short(l, cs);
            assert(0 * l.sectors_per_cluster == 0);
            assert(search_ok(d, dir, target, 0, Search::On(None)));
            lemma_search_chain(d, l, cs, target, 0, MAX_CHAIN as nat, Search::On(None));
        },
    }
}

/// In an orderly directory a name whose slot no file has is not found.
proof fn lemma_absent_not_found(d: Image, l: Layout, location: DirLocation, name: Seq<u8>)
    requires
        image_ok(d),
        proper(l),
        sound_dir(d, l, location),
        orderly(d, l, location),
        slot_for(d, l, location, short_name(name)).1 matches Ok((_, _, None)),
    ensures
        found(Volume { image: d, layout: Some(l) }, location, name) is Err,
{
    let dir = dir_sectors(d, l, location);
    let n = 16 * dir.len() as int;
    let target = short_name(name);
    lemma_slot_absent(d, l, location, target);
    assert(dir.skip(0) =~= dir);
    lemma_listing(d, dir, 0);
    let m = if none_matching(d, dir, target, n) {
        n
    } else {
        let m = choose|m: int| m < n && #[trigger] end_before(d, dir, target, m);
        assert(end_before(d, dir, target, m));
        lemma_not_done(d, dir, m);
        assert(listed_to(d, dir, m + 1).done);
        lemma_done_stays(d, dir, m + 1, n);
        m
    };
    lemma_plain_listed(d, dir, m, name);
    lemma_none_named(listed_to(d, dir, m).entries, name);
}

/// Whether a file can be written at a path so that all is well then: its name
/// is a plain one, its directory is sound, ends where its end mark is, has no
/// long names and no name twice, and neither the clusters of a file that is
/// replaced nor those of the directories on the way are also used for
/// something else that is written.
pub open spec fn in_order_for(d: Image, l: Layout, at: Place, path: Seq<u8>) -> bool {
    let v = Volume { image: d, layout: Some(l) };
    let (dir, name) = parent_and_name(path);
    &&& image_ok(d)
    &&& proper(l)
    &&& links_ok(d, l)
    &&& plain_name(name)
    &&& resolved(v, at, dir) matches Ok(location) && {
        &&& sound_dir(d, l, location)
        &&& ended(d, l, location)
        &&& orderly(d, l, location)
        &&& listing(v, location) matches Ok(before) && distinct_names(before)
        &&& slot_for(d, l, location, short_name(name)).1 matches Ok((_, _, Some(e))) ==> in_chain(e.cluster as int)
            ==> is_cluster(l, e.cluster as int)
        &&& forall|c: int|
            #[trigger] replaced_clusters(d, l, location, name).contains(c) ==> !dir_clusters(d, l, location).contains(c)
        &&& forall|i: int|
            0 <= i < looked_in(v, start_of(at, dir), components(dir)).len() ==> apart(
                d,
                l,
                #[trigger] looked_in(v, start_of(at, dir), components(dir))[i],
                location,
                replaced_clusters(d, l, location, name),
            )
    }
}

/// A file that has been written under a plain name in a directory that is in
/// order reads back as it was written, whatever was there before; its status
/// is that of a file of its length; and its directory lists its name exactly
/// once, has no other name twice, and is still orderly. What happens to other
/// files and directories, [`law_other_files_stay`] and
/// [`law_other_directories_stay`] say: nothing.
pub proof fn law_written_file(d: Image, l: Layout, at: Place, path: Seq<u8>, data: Seq<u8>)
    requires
        in_order_for(d, l, at, path),
        data.len() <= 0xFFFF_FFFF,
        saved(Volume { image: d, layout: Some(l) }, at, path, data).1 is Ok,
    ensures
        ({
            let v = Volume { image: d, layout: Some(l) };
            let v1 = Volume { image: saved(v, at, path, data).0, layout: Some(l) };
            let (dir, name) = parent_and_name(path);
            let location = resolved(v, at, dir)->Ok_0;
            let after = listing(v1, location)->Ok_0;
            &&& content(v1, at, path) == Ok::<Seq<u8>, &'static str>(data)
            &&& status(v1, at, path) == Ok::<(bool, u32), &'static str>((false, data.len() as u32))
            &&& listing(v1, location) is Ok
            &&& distinct_names(after)
            &&& exists|i: int| #[trigger] only_named(after, name, i)
            &&& orderly(v1.image, l, location)
        }),
{
    let v = Volume { image: d, layout: Some(l) };
    let (dir, name) = parent_and_name(path);
    let location = resolved(v, at, dir)->Ok_0;
    law_plain_names_are_storable(name);
    law_orderly_directories_are_clear(d, l, location, name);
    assert(can_keep(d, l, at, path));
    law_write_then_read(d, l, at, path, data);
    law_write_then_stat(d, l, at, path, data);
    assert(saved(v, at, path, data) == saved_in(d, l, location, name, data));
    if slot_for(d, l, location, short_name(name)).1->Ok_0.2 is None {
        lemma_absent_not_found(d, l, location, name);
    }
    law_written_names_stay_distinct(d, l, location, name, data);
    law_writing_keeps_order(d, l, location, name, data);
}

// ---- Removing ----

/// Whether the file under a name can be removed without harm to its
/// directory: its clusters are not also the directory's.
pub open spec fn can_drop(d: Image, l: Layout, location: DirLocation, name: Seq<u8>) -> bool {
    &&& image_ok(d)
    &&& proper(l)
    &&& links_ok(d, l)
    &&& sound_dir(d, l, location)
    &&& slot_for(d, l, location, short_name(name)).1 matches Ok((_, _, Some(e))) ==> {
        &&& in_chain(e.cluster as int) ==> is_cluster(l, e.cluster as int)
        &&& forall|c: int|
            #[trigger] old_clusters(d, l, Some(e)).contains(c) ==> !dir_clusters(d, l, location).contains(c)
    }
}

/// Removing a file takes exactly one entry out of its directory's listing and
/// leaves the others in order. If no other entry is shown under its name, the
/// name is not found any more.
pub proof fn law_remove(d: Image, l: Layout, at: Place, path: Seq<u8>, location: DirLocation)
    requires
        resolved(Volume { image: d, layout: Some(l) }, at, parent_and_name(path).0) == Ok::<DirLocation, &'static str>(
            location,
        ),
        can_drop(d, l, location, parent_and_name(path).1),
        removed(Volume { image: d, layout: Some(l) }, at, path).1 is Ok,
    ensures
        ({
            let name = parent_and_name(path).1;
            let d1 = removed(Volume { image: d, layout: Some(l) }, at, path).0;
            let before = listing(Volume { image: d, layout: Some(l) }, location);
            let v1 = Volume { image: d1, layout: Some(l) };
            exists|i: int|
                #![trigger before->Ok_0.remove(i)]
                before is Ok && 0 <= i < before->Ok_0.len() && listing(v1, location) == Ok::<Seq<Entry>, &'static str>(
                    before->Ok_0.remove(i),
                ) && ((forall|j: int|
                    0 <= j < before->Ok_0.len() && j != i ==> !same_name((#[trigger] before->Ok_0[j]).name, name))
                    ==> found(v1, location, name) == Err::<Entry, &'static str>("no such file or directory"))
        }),
{
    let name = parent_and_name(path).1;
    let target = short_name(name);
    let q = lemma_slot(d, l, location, target);
    let (da, r) = slot_for(d, l, location, target);
    let (lba, off, existing) = r->Ok_0;
    assert(da == d);
    let dir = dir_sectors(d, l, location);
    let e = existing->0;
    let old = old_clusters(d, l, existing);
    let d1 = after_freeing(d, l, existing);
    lemma_freed_outside(d, l, existing);
    let mark = seq![ENTRY_DELETED];
    let d2 = removed(Volume { image: d, layout: Some(l) }, at, path).0;
    assert(d2 == record_stored(d1, lba, off, mark).0);
    lemma_dir_distinct(d, l, location);
    assert forall|i: int| 0 <= i < dir.len() implies sector(d2, #[trigger] dir[i]) == if i == q / 16 {
        Ok::<Seq<u8>, &'static str>(splice(sector(d, dir[i])->Ok_0, 32 * (q % 16), mark))
    } else {
        sector(d, dir[i])
    } by {
        lemma_dir_safe(d, l, location, old, i);
        assert(sector(d1, dir[i]) == sector(d, dir[i]));
        assert(sector(d, dir[i]) is Ok);
        if i != q / 16 {
            assert(dir[i] != dir[q / 16]);
        }
    }
    lemma_dir_safe(d, l, location, old, q / 16);
    assert forall|c: int| dir_clusters(d, l, location).contains(c) implies #[trigger] fat_get(d2, l, c) == fat_get(
        d,
        l,
        c,
    ) by {
        let cs = dir_clusters(d, l, location);
        let i = choose|i: int| 0 <= i < cs.len() && cs[i] == c;
        assert(is_cluster(l, cs[i]));
        assert(!old.contains(c));
        assert(fat_get(d1, l, c) == fat_get(d, l, c));
        lemma_fat_get_same(d1, d2, l, c);
    }
    lemma_dir_same(d, d2, l, location);
    lemma_replaced(d, d2, dir, q, mark);
    assert(sector(d, dir[q / 16]) is Ok);
    let rec = record_at(d, dir, q);
    assert(rec.len() == 32);
    lemma_lfn_is_volume(rec[11]);
    lemma_listed_same(d, d2, dir, q);
    lemma_not_done(d, dir, q);
    let x = listed_to(d, dir, q);
    let i = x.entries.len() as int;
    let y = listed_to(d, dir, q + 1);
    let z = listed_to(d2, dir, q + 1);
    assert(record_at(d2, dir, q)[0] == ENTRY_DELETED);
    assert(y.entries.len() == i + 1);
    assert(z.entries =~= y.entries.remove(i));
    let n = 16 * dir.len() as int;
    lemma_listed_without(d, d2, dir, q, i, n);
    assert(dir.skip(0) =~= dir);
    lemma_listing(d, dir, 0);
    lemma_listing(d2, dir, 0);
    let all = listed_to(d, dir, n).entries;
    let left = all.remove(i);
    if forall|j: int| 0 <= j < all.len() && j != i ==> !same_name((#[trigger] all[j]).name, name) {
        assert forall|j: int| 0 <= j < left.len() implies !same_name((#[trigger] left[j]).name, name) by {
            if j < i {
                assert(left[j] == all[j]);
            } else {
                assert(left[j] == all[j + 1]);
            }
        }
        lemma_none_named(left, name);
    }
    let v = Volume { image: d, layout: Some(l) };
    let v1 = Volume { image: d2, layout: Some(l) };
    assert(listed_to(d2, dir, n).entries == left);
    assert(listing(v1, location) == Ok::<Seq<Entry>, &'static str>(left));
    assert(listing(v, location) == Ok::<Seq<Entry>, &'static str>(all));
    assert(listing(v, location)->Ok_0.remove(i) == left);
}

/// What removing a file leaves of the volume: the table but for the file's
/// clusters, and every sector but the tables' and that of the slot.
proof fn lemma_removed(d: Image, l: Layout, at: Place, path: Seq<u8>, location: DirLocation)
    requires
        resolved(Volume { image: d, layout: Some(l) }, at, parent_and_name(path).0) == Ok::<DirLocation, &'static str>(
            location,
        ),
        can_drop(d, l, location, parent_and_name(path).1),
        removed(Volume { image: d, layout: Some(l) }, at, path).1 is Ok,
    ensures
        ({
            let name = parent_and_name(path).1;
            let d2 = removed(Volume { image: d, layout: Some(l) }, at, path).0;
            let (d1, r) = slot_for(d, l, location, short_name(name));
            let lba = r->Ok_0.0;
            &&& d1 == d
            &&& r is Ok
            &&& r->Ok_0.2 is Some
            &&& forall|c: int|
                is_cluster(l, c) && !replaced_clusters(d, l, location, name).contains(c) ==> #[trigger] fat_get(
                    d2,
                    l,
                    c,
                ) == fat_get(d, l, c)
            &&& forall|x: int|
                x >= l.root_dir_start_lba && x != lba ==> #[trigger] sector(d2, x) == sector(d, x)
        }),
{
    let name = parent_and_name(path).1;
    let target = short_name(name);
    let q = lemma_slot(d, l, location, target);
    let (da, r) = slot_for(d, l, location, target);
    let (lba, off, existing) = r->Ok_0;
    let old = old_clusters(d, l, existing);
    let d1 = after_freeing(d, l, existing);
    lemma_freed_outside(d, l, existing);
    let d2 = removed(Volume { image: d, layout: Some(l) }, at, path).0;
    assert(d2 == record_stored(d1, lba, off, seq![ENTRY_DELETED]).0);
    lemma_dir_safe(d, l, location, old, q / 16);
    assert forall|c: int| is_cluster(l, c) && !old.contains(c) implies #[trigger] fat_get(d2, l, c) == fat_get(
        d,
        l,
        c,
    ) by {
        assert(fat_get(d1, l, c) == fat_get(d, l, c));
        lemma_fat_get_same(d1, d2, l, c);
    }
    assert forall|x: int| x >= l.root_dir_start_lba && x != lba implies #[trigger] sector(d2, x) == sector(d, x) by {
        assert(sector(d1, x) == sector(d, x));
    }
}

/// Removing a file leaves the contents of every other file as they were: of
/// one whose clusters are a chain that neither the directory nor the file
/// that is removed has a part in.
pub proof fn law_removal_spares_files(d: Image, l: Layout, at: Place, path: Seq<u8>, location: DirLocation, e: Entry)
    requires
        resolved(Volume { image: d, layout: Some(l) }, at, parent_and_name(path).0) == Ok::<DirLocation, &'static str>(
            location,
        ),
        can_drop(d, l, location, parent_and_name(path).1),
        removed(Volume { image: d, layout: Some(l) }, at, path).1 is Ok,
        in_chain(e.cluster as int) ==> {
            let cs = chain_clusters(d, l, e.cluster as int, MAX_CHAIN as nat);
            &&& whole(d, l, cs)
            &&& forall|c: int|
                #[trigger] cs.contains(c) ==> !dir_clusters(d, l, location).contains(c) && !replaced_clusters(
                    d,
                    l,
                    location,
                    parent_and_name(path).1,
                ).contains(c)
        },
    ensures
        entry_content(removed(Volume { image: d, layout: Some(l) }, at, path).0, l, e) == entry_content(d, l, e),
{
    if in_chain(e.cluster as int) {
        let name = parent_and_name(path).1;
        let q = lemma_slot(d, l, location, short_name(name));
        lemma_removed(d, l, at, path, location);
        let d2 = removed(Volume { image: d, layout: Some(l) }, at, path).0;
        let cs = chain_clusters(d, l, e.cluster as int, MAX_CHAIN as nat);
        assert(cs[0] == e.cluster);
        assert forall|c: int| cs.contains(c) implies #[trigger] fat_get(d2, l, c) == fat_get(d, l, c) && is_cluster(
            l,
            c,
        ) && spared(d, l, dir_clusters(d, l, location), c) by {
            let i = choose|i: int| 0 <= i < cs.len() && cs[i] == c;
            assert(linked_at(d, l, cs, i));
            assert(is_cluster(l, cs[i]));
        }
        assert forall|c: int, x: int| cs.contains(c) && #[trigger] in_cluster(l, c, x) implies sector(d2, x) == sector(
            d,
            x,
        ) by {
            assert(fat_get(d2, l, c) == fat_get(d, l, c));
            lemma_cluster_in_data(l, c);
            lemma_file_sector(d, l, location, name, q, c, x);
        }
        lemma_read_chain_same(d, d2, l, cs, 0, e.size as int, Seq::empty(), chain_budget(e.size as int));
    }
}

/// Removing a file leaves every other directory as it was.
pub proof fn law_removal_spares_directories(
    d: Image,
    l: Layout,
    at: Place,
    path: Seq<u8>,
    location: DirLocation,
    other: DirLocation,
)
    requires
        resolved(Volume { image: d, layout: Some(l) }, at, parent_and_name(path).0) == Ok::<DirLocation, &'static str>(
            location,
        ),
        can_drop(d, l, location, parent_and_name(path).1),
        removed(Volume { image: d, layout: Some(l) }, at, path).1 is Ok,
        apart(d, l, other, location, replaced_clusters(d, l, location, parent_and_name(path).1)),
    ensures
        listing(
            Volume { image: removed(Volume { image: d, layout: Some(l) }, at, path).0, layout: Some(l) },
            other,
        ) == listing(Volume { image: d, layout: Some(l) }, other),
{
    let name = parent_and_name(path).1;
    let q = lemma_slot(d, l, location, short_name(name));
    lemma_removed(d, l, at, path, location);
    let d2 = removed(Volume { image: d, layout: Some(l) }, at, path).0;
    let cs = dir_clusters(d, l, other);
    let dir = dir_sectors(d, l, other);
    assert forall|c: int| cs.contains(c) implies #[trigger] fat_get(d2, l, c) == fat_get(d, l, c) by {
        let i = choose|i: int| 0 <= i < cs.len() && cs[i] == c;
        assert(is_cluster(l, cs[i]));
    }
    lemma_dir_same(d, d2, l, other);
    assert forall|i: int| 0 <= i < dir.len() implies sector(d2, #[trigger] dir[i]) == sector(d, dir[i]) by {
        lemma_other_sector(d, l, location, name, other, q, i);
    }
    lemma_listed_sectors_same(d, d2, crate::volume::fresh_listing(), dir);
}

// ---- The copies of the table ----

proof fn lemma_slot_mirrored(d: Image, l: Layout, location: DirLocation, target: Seq<u8>)
    requires
        image_ok(d),
        proper(l),
        links_ok(d, l),
        mirrored(d, l),
        sound_dir(d, l, location),
        slot_for(d, l, location, target).1 is Ok,
    ensures
        mirrored(slot_for(d, l, location, target).0, l),
{
    if let DirLocation::Cluster(c) = location {
        let cs = dir_clusters(d, l, location);
        assert(cs[0] == c);
        let dir = dir_sectors(d, l, location);
        lemma_dir_sectors(d, l, c, cs);
        lemma_chain_short(l, cs);
        assert(0 * l.sectors_per_cluster == 0);
        assert(search_ok(d, dir, target, 0, Search::On(None)));
        lemma_search_chain(d, l, cs, target, 0, MAX_CHAIN as nat, Search::On(None));
        let (x, last) = searched_chain(d, l, Search::On(None), target, c as int, MAX_CHAIN as nat);
        if x == Search::On(None) {
            assert(is_cluster(l, cs[cs.len() - 1]));
            assert(linked_at(d, l, cs, cs.len() - 1));
            lemma_extended_stored(d, l, last);
            lemma_stored_mirrored(d, l, blank(l), 0, Some(last), 0);
        }
    }
}

/// Writing a file keeps the copies of the table the same, and so does
/// removing one.
pub proof fn law_writes_keep_copies(
    d: Image,
    l: Layout,
    at: Place,
    path: Seq<u8>,
    data: Seq<u8>,
    location: DirLocation,
)
    requires
        resolved(Volume { image: d, layout: Some(l) }, at, parent_and_name(path).0) == Ok::<DirLocation, &'static str>(
            location,
        ),
        can_drop(d, l, location, parent_and_name(path).1),
        mirrored(d, l),
    ensures
        ({
            let v = Volume { image: d, layout: Some(l) };
            &&& saved(v, at, path, data).1 is Ok ==> mirrored(saved(v, at, path, data).0, l)
            &&& removed(v, at, path).1 is Ok ==> mirrored(removed(v, at, path).0, l)
        }),
{
    let v = Volume { image: d, layout: Some(l) };
    let target = short_name(parent_and_name(path).1);
    if slot_for(d, l, location, target).1 is Ok && parent_and_name(path).1.len() > 0 {
        let q = lemma_slot(d, l, location, target);
        lemma_slot_mirrored(d, l, location, target);
        let (da, r) = slot_for(d, l, location, target);
        let (lba, off, existing) = r->Ok_0;
        let old = old_clusters(da, l, existing);
        let none = Seq::<int>::empty();
        lemma_dir_safe(da, l, location, none, q / 16);
        let d1 = after_freeing(da, l, existing);
        if saved(v, at, path, data).1 is Ok || removed(v, at, path).1 is Ok {
            lemma_freed_outside(da, l, existing);
            if let Some(e) = existing {
                if e.cluster >= 2 {
                    lemma_freed_mirrored(da, l, e.cluster as int, MAX_CHAIN as nat);
                }
            }
        }
        if saved(v, at, path, data).1 is Ok {
            lemma_stored_mirrored(d1, l, data, 0, None, 0);
            let d2 = stored(d1, l, data, 0, None, 0).0;
            lemma_mirrored_same(d2, saved(v, at, path, data).0, l);
        }
        if removed(v, at, path).1 is Ok {
            lemma_mirrored_same(d1, removed(v, at, path).0, l);
        }
    }
}

} // verus!
