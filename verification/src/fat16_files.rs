//! What holds of the files and paths of a volume that is only read.
use crate::commands::cwd_text;
use crate::fat16_dirs::{
    chain_clusters, lemma_chain_short, lemma_components, lemma_last_step, lemma_spread_at, lemma_steps_append,
    linked_at, spread, whole,
};
use crate::fat16_laws::{
    cluster_sector, is_cluster, law_range_is_part, lemma_mul_step, lemma_read_sectors_bytes, nth_cluster, proper,
    readable,
};
use crate::volume::{
    advanced, chain_budget, cluster_lba, components, content, content_range, fat_get, file_entry, found, image_ok,
    in_chain, min, next_cluster, opened, parent_and_name, path_text, place_ok, read_chain, read_run, read_sectors,
    resolved, root_place, sector, splice, status, stepped_all, top_of, valid_cluster, walked, Entry, File, Image,
    Layout, Place, Volume, MAX_CHAIN,
};
use vstd::prelude::*;

verus! {

// ---- Status and opening ----

/// Whether no file stands under the names `.` and `..` in the directory that
/// a path leads through: a walk never looks those two up.
pub open spec fn dots_are_no_files(v: Volume, at: Place, path: Seq<u8>) -> bool {
    let name = parent_and_name(path).1;
    name == seq![0x2Eu8] || name == seq![0x2Eu8, 0x2Eu8] ==> file_entry(v, at, path) is Err
}

/// Whether a path names a file of `n` bytes that can be opened.
pub open spec fn opens_with(v: Volume, at: Place, path: Seq<u8>, n: u32) -> bool {
    file_entry(v, at, path) matches Ok(e) && opened(e).size == n
}

/// The status of a path and opening it agree. A path that leads to a
/// directory has the status of one, and only such a path has; the status is
/// that of a file of `n` bytes exactly when a file of that size is opened;
/// any other path has no status.
pub proof fn law_status_and_opening_agree(v: Volume, at: Place, path: Seq<u8>, n: u32)
    requires
        dots_are_no_files(v, at, path),
    ensures
        resolved(v, at, path) is Ok <==> status(v, at, path) == Ok::<(bool, u32), &'static str>((true, 0u32)),
        opens_with(v, at, path, n) <==> status(v, at, path) == Ok::<(bool, u32), &'static str>((false, n)),
        resolved(v, at, path) is Err && file_entry(v, at, path) is Err ==> status(v, at, path) is Err,
{
    let (dir, name) = parent_and_name(path);
    if name.len() > 0 {
        lemma_last_step(v, at, path);
    }
}

// ---- The current directory ----

/// Whether the directories on the way to a place are still there: each is
/// what its name leads to in the one above it.
pub open spec fn stands(v: Volume, stack: Seq<(Seq<u8>, u32)>, i: int) -> bool {
    let name = stack[i].0;
    &&& found(v, top_of(stack.take(i)), name) matches Ok(e) && e.is_dir && e.name == name && e.cluster == stack[i].1
    &&& name.len() > 0
    &&& name != seq![0x2Eu8]
    &&& name != seq![0x2Eu8, 0x2Eu8]
    &&& forall|k: int| 0 <= k < name.len() ==> name[k] != 0x2F
}

/// The names on the way to a place.
pub open spec fn names(stack: Seq<(Seq<u8>, u32)>) -> Seq<Seq<u8>> {
    stack.map_values(|s: (Seq<u8>, u32)| s.0)
}

proof fn lemma_path_names(v: Volume, stack: Seq<(Seq<u8>, u32)>)
    requires
        forall|i: int| 0 <= i < stack.len() ==> #[trigger] stands(v, stack, i),
    ensures
        components(path_text(stack)) == names(stack),
        stack.len() > 0 ==> path_text(stack).len() > 1 && path_text(stack)[0] == 0x2F,
        stepped_all(v, root_place(), names(stack)) == Ok::<Place, &'static str>(
            Place { location: top_of(stack), stack },
        ),
    decreases stack.len(),
{
    if stack.len() == 0 {
        assert(components(path_text(stack)) =~= names(stack));
        assert(stack =~= Seq::empty());
    } else {
        let less = stack.drop_last();
        let last = stack.len() - 1;
        assert forall|i: int| 0 <= i < less.len() implies #[trigger] stands(v, less, i) by {
            assert(stands(v, stack, i));
            assert(less.take(i) =~= stack.take(i));
        }
        lemma_path_names(v, less);
        assert(stands(v, stack, last));
        assert(stack.take(last) =~= less);
        let name = stack.last().0;
        lemma_components(path_text(less), name);
        assert(names(stack) =~= names(less).push(name));
        lemma_steps_append(v, root_place(), names(less), name);
        assert(less.push((name, stack.last().1)) =~= stack);
    }
}

/// The printed path of the current directory leads back to it, from
/// wherever one is, as long as the directories on the way stand: it is `/`
/// for the root and for the root alone.
pub proof fn law_printed_path_leads_back(v: Volume, at: Place, from: Place)
    requires
        place_ok(at),
        forall|i: int| 0 <= i < at.stack.len() ==> #[trigger] stands(v, at.stack, i),
    ensures
        walked(v, from, cwd_text(at)) == Ok::<Place, &'static str>(at),
        cwd_text(at) == seq![0x2Fu8] <==> at.stack.len() == 0,
{
    lemma_path_names(v, at.stack);
    if at.stack.len() == 0 {
        let slash = seq![0x2Fu8];
        assert(slash.drop_first() =~= Seq::empty());
        assert(components(Seq::<u8>::empty()) =~= Seq::empty());
        assert(components(slash) =~= Seq::empty());
        assert(at.stack =~= Seq::empty());
    }
}

// ---- Part of a file ----

/// A file whose chain has an end and no loop, lies in the data region, can be
/// read, and has room for all its bytes.
pub open spec fn sound_file(d: Image, l: Layout, e: Entry) -> bool {
    let cs = chain_clusters(d, l, e.cluster as int, MAX_CHAIN as nat);
    e.size > 0 ==> {
        &&& in_chain(e.cluster as int)
        &&& whole(d, l, cs)
        &&& forall|i: int| 0 <= i < cs.len() ==> valid_cluster(l, #[trigger] cs[i])
        &&& readable(d, spread(l, cs))
        &&& e.size <= cs.len() * (l.sectors_per_cluster * 512)
    }
}

proof fn lemma_sectors_read(d: Image, lba: int, n: int, size: int, data: Seq<u8>)
    requires
        image_ok(d),
        data.len() <= size,
        forall|k: int| lba <= k < lba + n ==> #[trigger] sector(d, k) is Ok,
        0 <= n,
    ensures
        read_sectors(d, lba, n, size, data) matches Ok(more) && more.len() == min(data.len() + 512 * n, size),
    decreases n,
{
    if n > 0 {
        let s = sector(d, lba)->Ok_0;
        let more = data + s.take(min(size - data.len(), 512));
        if more.len() < size {
            lemma_sectors_read(d, lba + 1, n - 1, size, more);
        }
    }
}

proof fn lemma_chain_sectors_read(d: Image, l: Layout, cs: Seq<int>, i: int)
    requires
        l.sectors_per_cluster > 0,
        readable(d, spread(l, cs)),
        0 <= i < cs.len(),
    ensures
        forall|x: int|
            cluster_lba(l, cs[i]) <= x < cluster_lba(l, cs[i]) + l.sectors_per_cluster ==> #[trigger] sector(d, x)
                is Ok,
{
    assert forall|x: int|
        cluster_lba(l, cs[i]) <= x < cluster_lba(l, cs[i]) + l.sectors_per_cluster implies #[trigger] sector(d, x)
        is Ok by {
        let k = x - cluster_lba(l, cs[i]);
        lemma_spread_at(l, cs, i, k);
        assert(sector(d, spread(l, cs)[i * l.sectors_per_cluster + k]) is Ok);
    }
}

/// A sound chain is read to the end of its file.
proof fn lemma_chain_read(d: Image, l: Layout, cs: Seq<int>, i: int, size: int, data: Seq<u8>, left: nat)
    requires
        image_ok(d),
        proper(l),
        whole(d, l, cs),
        readable(d, spread(l, cs)),
        0 <= i < cs.len(),
        left >= cs.len() - i,
        data.len() == i * (l.sectors_per_cluster * 512),
        data.len() < size <= cs.len() * (l.sectors_per_cluster * 512),
    ensures
        read_chain(d, l, cs[i], size, data, left) matches Ok(all) && all.len() == size,
    decreases cs.len() - i,
{
    let c = cs[i];
    let n = l.sectors_per_cluster as int;
    assert(is_cluster(l, c));
    assert(linked_at(d, l, cs, i));
    lemma_chain_sectors_read(d, l, cs, i);
    lemma_sectors_read(d, cluster_lba(l, c), n, size, data);
    lemma_mul_step(i, n * 512);
    let more = read_sectors(d, cluster_lba(l, c), n, size, data)->Ok_0;
    reveal_with_fuel(read_chain, 2);
    if more.len() < size {
        if i + 1 == cs.len() {
            assert(false);
        }
        lemma_chain_read(d, l, cs, i + 1, size, more, (left - 1) as nat);
    }
}

proof fn lemma_chain_advances(d: Image, l: Layout, cs: Seq<int>, n: int)
    requires
        whole(d, l, cs),
        forall|i: int| 0 <= i < cs.len() ==> valid_cluster(l, #[trigger] cs[i]),
        0 <= n < cs.len(),
    ensures
        advanced(d, l, cs[0], n) == Ok::<int, &'static str>(cs[n]),
    decreases n,
{
    if n > 0 {
        lemma_chain_advances(d, l, cs, n - 1);
        assert(valid_cluster(l, cs[n - 1]));
        assert(linked_at(d, l, cs, n - 1));
    }
}

/// A partial read inside a sound chain comes to its end.
proof fn lemma_run_read(
    d: Image,
    l: Layout,
    cs: Seq<int>,
    f: File,
    out: Seq<u8>,
    index: int,
    within: int,
    done: int,
    want: int,
)
    requires
        image_ok(d),
        proper(l),
        whole(d, l, cs),
        forall|i: int| 0 <= i < cs.len() ==> valid_cluster(l, #[trigger] cs[i]),
        readable(d, spread(l, cs)),
        0 <= index < cs.len(),
        cs.len() <= l.clusters(),
        0 <= done <= want,
        done < want ==> 0 <= within < l.sectors_per_cluster * 512,
        done < want ==> index * (l.sectors_per_cluster * 512) + within + (want - done) <= cs.len() * (
        l.sectors_per_cluster * 512),
    ensures
        read_run(d, l, f, out, cs[index], index, within, done, want).2 is Ok,
    decreases want - done,
{
    let per = l.sectors_per_cluster * 512;
    let c = cs[index];
    if done < want {
        assert(valid_cluster(l, c));
        let f1 = File { cursor_cluster: c as u32, cursor_index: index as u32, ..f };
        lemma_chain_sectors_read(d, l, cs, index);
        assert(0 <= within / 512 < l.sectors_per_cluster);
        let s = sector(d, cluster_lba(l, c) + within / 512)->Ok_0;
        let lo = within % 512;
        let n = min(512 - lo, want - done);
        let out1 = splice(out, done, s.subrange(lo, lo + n));
        if within + n == per && done + n < want {
            lemma_mul_step(index, per);
            if index + 1 == cs.len() {
                assert(false);
            }
            assert(linked_at(d, l, cs, index));
            lemma_run_read(d, l, cs, f1, out1, index + 1, 0, done + n, want);
        } else {
            lemma_run_read(d, l, cs, f1, out1, index, within + n, done + n, want);
        }
    }
}

/// A sound file is read whole, and reading any part of it gives that part of
/// the whole; from its end on there is nothing to read.
pub proof fn law_sound_files_are_read(v: Volume, l: Layout, at: Place, path: Seq<u8>, offset: int, len: int)
    requires
        image_ok(v.image),
        v.layout == Some(l),
        proper(l),
        0 <= offset,
        0 <= len,
        file_entry(v, at, path) matches Ok(e) && sound_file(v.image, l, e),
    ensures
        content(v, at, path) matches Ok(data) && data.len() == file_entry(v, at, path)->Ok_0.size,
        ({
            let data = content(v, at, path)->Ok_0;
            let a = min(offset, data.len() as int);
            let b = min(offset + len, data.len() as int);
            content_range(v, at, path, offset, len) == Ok::<Seq<u8>, &'static str>(data.subrange(a, b))
        }),
{
    let e = file_entry(v, at, path)->Ok_0;
    let d = v.image;
    let cs = chain_clusters(d, l, e.cluster as int, MAX_CHAIN as nat);
    let per = l.sectors_per_cluster * 512;
    if e.size > 0 {
        assert(cs[0] == e.cluster);
        lemma_chain_short(l, cs);
        assert(0 * per == 0);
        lemma_chain_read(d, l, cs, 0, e.size as int, Seq::empty(), chain_budget(e.size as int));
    }
    let n = if offset < e.size {
        min(len, e.size - offset)
    } else {
        0
    };
    if offset < e.size && n > 0 {
        let target = offset / per;
        vstd::arithmetic::div_mod::lemma_fundamental_div_mod(offset, per);
        assert(0 <= target && target * per == per * target && target * per <= offset) by (nonlinear_arith)
            requires
                0 <= offset,
                per > 0,
                target == offset / per,
        ;
        assert(target < cs.len()) by (nonlinear_arith)
            requires
                target * per <= offset,
                offset < cs.len() * per,
                per > 0,
        ;
        lemma_chain_advances(d, l, cs, target);
        let zeros = Seq::new(n as nat, |i: int| 0u8);
        lemma_run_read(d, l, cs, opened(e), zeros, target, offset % per, 0, n);
        assert(valid_cluster(l, cs[0]));
    }
    law_range_is_part(v, at, path, offset, len);
    let data = content(v, at, path)->Ok_0;
    if offset >= data.len() {
        assert(data.subrange(data.len() as int, data.len() as int) =~= Seq::empty());
    }
}

/// A file that was read whole from clusters of its volume: every cluster that
/// its bytes are in can belong to a file, and there are no more of them than
/// the volume has.
pub open spec fn inside_volume(d: Image, l: Layout, e: Entry) -> bool {
    let per = l.sectors_per_cluster * 512;
    &&& per > 0
    &&& e.size <= l.clusters() * per
    &&& forall|i: int|
        0 <= i && i * per < e.size ==> valid_cluster(l, #[trigger] nth_cluster(d, l, e.cluster as int, i))
}

/// What reading the bytes of cluster `i` of a chain takes.
spec fn cluster_read(d: Image, l: Layout, first: int, size: int, i: int) -> bool {
    let c = nth_cluster(d, l, first, i);
    let per = l.sectors_per_cluster * 512;
    &&& fat_get(d, l, c) is Some
    &&& forall|j: int|
        0 <= j < l.sectors_per_cluster && i * per + 512 * j < size ==> sector(
            d,
            #[trigger] cluster_sector(l, c, j),
        ) is Ok
}

proof fn lemma_sectors_were_read(d: Image, lba: int, n: int, size: int, data: Seq<u8>, j: int)
    requires
        image_ok(d),
        data.len() < size,
        read_sectors(d, lba, n, size, data) is Ok,
        0 <= j < n,
        data.len() + 512 * j < size,
    ensures
        sector(d, lba + j) is Ok,
    decreases n,
{
    if j > 0 {
        let s = sector(d, lba)->Ok_0;
        let more = data + s.take(min(size - data.len(), 512));
        lemma_sectors_were_read(d, lba + 1, n - 1, size, more, j - 1);
    }
}

/// A chain that was read to the end of its file could be read all the way.
proof fn lemma_chain_was_read(d: Image, l: Layout, first: int, k: int, size: int, data: Seq<u8>, left: nat, i: int)
    requires
        image_ok(d),
        l.sectors_per_cluster > 0,
        0 <= k <= i,
        data.len() == k * (l.sectors_per_cluster * 512),
        i * (l.sectors_per_cluster * 512) < size,
        data.len() < size,
        read_chain(d, l, nth_cluster(d, l, first, k), size, data, left) matches Ok(all) && all.len() == size,
    ensures
        cluster_read(d, l, first, size, i),
    decreases left,
{
    let c = nth_cluster(d, l, first, k);
    let per = l.sectors_per_cluster * 512;
    let n = l.sectors_per_cluster as int;
    let lba = cluster_lba(l, c);
    let more = read_sectors(d, lba, n, size, data)->Ok_0;
    lemma_read_sectors_bytes(d, lba, n, size, data);
    lemma_mul_step(k, per);
    if k == i {
        assert forall|j: int| 0 <= j < n && i * per + 512 * j < size implies sector(
            d,
            #[trigger] cluster_sector(l, c, j),
        ) is Ok by {
            lemma_sectors_were_read(d, lba, n, size, data, j);
        }
    } else {
        assert((k + 1) * per <= i * per) by (nonlinear_arith)
            requires
                k + 1 <= i,
                per > 0,
        ;
        lemma_chain_was_read(d, l, first, k + 1, size, more, (left - 1) as nat, i);
    }
}

proof fn lemma_advances_inside(d: Image, l: Layout, e: Entry, n: int)
    requires
        inside_volume(d, l, e),
        forall|i: int|
            0 <= i && i * (l.sectors_per_cluster * 512) < e.size ==> #[trigger] cluster_read(
                d,
                l,
                e.cluster as int,
                e.size as int,
                i,
            ),
        0 <= n,
        n * (l.sectors_per_cluster * 512) < e.size,
    ensures
        advanced(d, l, e.cluster as int, n) == Ok::<int, &'static str>(nth_cluster(d, l, e.cluster as int, n)),
    decreases n,
{
    if n > 0 {
        let per = l.sectors_per_cluster * 512;
        lemma_mul_step(n - 1, per);
        lemma_advances_inside(d, l, e, n - 1);
        assert(cluster_read(d, l, e.cluster as int, e.size as int, n - 1));
        assert(valid_cluster(l, nth_cluster(d, l, e.cluster as int, n - 1)));
    }
}

proof fn lemma_run_inside(
    d: Image,
    l: Layout,
    e: Entry,
    f: File,
    out: Seq<u8>,
    index: int,
    within: int,
    done: int,
    want: int,
)
    requires
        image_ok(d),
        inside_volume(d, l, e),
        forall|i: int|
            0 <= i && i * (l.sectors_per_cluster * 512) < e.size ==> #[trigger] cluster_read(
                d,
                l,
                e.cluster as int,
                e.size as int,
                i,
            ),
        0 <= index,
        0 <= done <= want,
        done < want ==> 0 <= within < l.sectors_per_cluster * 512,
        done < want ==> index * (l.sectors_per_cluster * 512) + within + (want - done) <= e.size,
    ensures
        read_run(d, l, f, out, nth_cluster(d, l, e.cluster as int, index), index, within, done, want).2 is Ok,
    decreases want - done,
{
    let per = l.sectors_per_cluster * 512;
    let c = nth_cluster(d, l, e.cluster as int, index);
    if done < want {
        assert(valid_cluster(l, c));
        assert(cluster_read(d, l, e.cluster as int, e.size as int, index));
        assert(index < l.clusters()) by (nonlinear_arith)
            requires
                index * per < l.clusters() * per,
                per > 0,
        ;
        let f1 = File { cursor_cluster: c as u32, cursor_index: index as u32, ..f };
        let j = within / 512;
        assert(sector(d, cluster_sector(l, c, j)) is Ok);
        let s = sector(d, cluster_lba(l, c) + within / 512)->Ok_0;
        let lo = within % 512;
        let n = min(512 - lo, want - done);
        let out1 = splice(out, done, s.subrange(lo, lo + n));
        if within + n == per && done + n < want {
            lemma_mul_step(index, per);
            assert(nth_cluster(d, l, e.cluster as int, index + 1) == next_cluster(d, l, c)->Ok_0);
            lemma_run_inside(d, l, e, f1, out1, index + 1, 0, done + n, want);
        } else {
            lemma_run_inside(d, l, e, f1, out1, index, within + n, done + n, want);
        }
    }
}

/// Where reading a file gives all its bytes, from clusters of its volume,
/// reading any part of it succeeds and gives that part, cut off at the end of
/// the file; from there on there is nothing to read.
pub proof fn law_parts_of_a_read_file(v: Volume, l: Layout, at: Place, path: Seq<u8>, offset: int, len: int)
    requires
        image_ok(v.image),
        v.layout == Some(l),
        l.wf(),
        0 <= offset,
        0 <= len,
        file_entry(v, at, path) matches Ok(e) && inside_volume(v.image, l, e),
        content(v, at, path) matches Ok(data) && data.len() == file_entry(v, at, path)->Ok_0.size,
    ensures
        ({
            let data = content(v, at, path)->Ok_0;
            let a = min(offset, data.len() as int);
            let b = min(offset + len, data.len() as int);
            content_range(v, at, path, offset, len) == Ok::<Seq<u8>, &'static str>(data.subrange(a, b))
        }),
{
    let e = file_entry(v, at, path)->Ok_0;
    let d = v.image;
    let data = content(v, at, path)->Ok_0;
    let per = l.sectors_per_cluster * 512;
    let first = e.cluster as int;
    let n = if offset < e.size {
        min(len, e.size - offset)
    } else {
        0
    };
    if offset < e.size && n > 0 {
        assert(0 * per == 0);
        assert forall|i: int| 0 <= i && i * per < e.size implies #[trigger] cluster_read(
            d,
            l,
            first,
            e.size as int,
            i,
        ) by {
            lemma_chain_was_read(d, l, first, 0, e.size as int, Seq::empty(), chain_budget(e.size as int), i);
        }
        let target = offset / per;
        vstd::arithmetic::div_mod::lemma_fundamental_div_mod(offset, per);
        assert(0 <= target && target * per == per * target && target * per <= offset) by (nonlinear_arith)
            requires
                0 <= offset,
                per > 0,
                target == offset / per,
        ;
        assert(target < l.clusters()) by (nonlinear_arith)
            requires
                target * per < l.clusters() * per,
                per > 0,
        ;
        assert(l.total_sectors >= l.data_start_lba) by (nonlinear_arith)
            requires
                0 < l.clusters(),
                l.clusters() == (l.total_sectors - l.data_start_lba) / (l.sectors_per_cluster as int),
                l.sectors_per_cluster > 0,
        ;
        lemma_advances_inside(d, l, e, target);
        let zeros = Seq::new(n as nat, |i: int| 0u8);
        lemma_run_inside(d, l, e, opened(e), zeros, target, offset % per, 0, n);
    }
    law_range_is_part(v, at, path, offset, len);
    if offset >= data.len() {
        assert(data.subrange(data.len() as int, data.len() as int) =~= Seq::empty());
    }
}

} // verus!
