//! Finding out whether the tables of an address space are in order, by
//! following every link from the root.
use crate::paging::{
    entry, huge, known, leaf_of, lemma_same_tables, lemma_target_aligned, lemma_tree, links, not_free, path_ok,
    path_used, present, read_entry, table_at, tables_ok, tables_used, target, tree, Mem, Memory, ADDR_MASK, PAGE_HUGE,
    PAGE_PRESENT,
};
use crate::pmm::{frame_free, FRAME_SIZE};
use crate::ram::in_ram;
use crate::space::{data_apart, data_frame, is_table, lower, space_ok};
use crate::vaddr::{composed, index, lemma_composed, lemma_index, same_page, same_prefix};
use vstd::prelude::*;

verus! {

broadcast use lemma_index;

/// A table that was found: an address on the way to which it is, its level,
/// and the entry that links it.
ghost struct Node {
    table: u64,
    virt: u64,
    level: int,
    parent: int,
    slot: int,
}

/// Whether entry `s` of the table found as number `p` comes before entry `k`
/// of number `i`.
spec fn before(p: int, s: int, i: int, k: int) -> bool {
    p < i || p == i && s < k
}

spec fn node_ok(s: Mem, pml4: u64, nodes: Seq<Node>, seen: Seq<bool>, j: int, i: int, k: int) -> bool {
    let x = nodes[j];
    &&& 0 <= x.level <= 3
    &&& table_at(s.ram, pml4, x.virt, x.level) == Some(x.table)
    &&& in_ram(s.ram, x.table)
    &&& not_free(s.frames, x.table)
    &&& x.table / FRAME_SIZE < seen.len()
    &&& seen[(x.table / FRAME_SIZE) as int]
    &&& j > 0 ==> {
        &&& 0 <= x.parent < nodes.len()
        &&& 0 <= x.slot < 512
        &&& before(x.parent, x.slot, i, k)
        &&& x.level == nodes[x.parent].level + 1
        &&& same_prefix(x.virt, nodes[x.parent].virt, x.level - 1)
        &&& index(x.virt, x.level - 1) == x.slot
    }
}

spec fn links_from(nodes: Seq<Node>, j: int, p: int, s: int) -> bool {
    0 < j < nodes.len() && nodes[j].parent == p && nodes[j].slot == s
}

spec fn marked(nodes: Seq<Node>, j: int, f: int) -> bool {
    0 <= j < nodes.len() && nodes[j].table / FRAME_SIZE == f
}

/// What is known once the entries before entry `k` of table number `i` have
/// been followed.
spec fn followed(s: Mem, pml4: u64, nodes: Seq<Node>, seen: Seq<bool>, i: int, k: int) -> bool {
    &&& nodes.len() > 0
    &&& nodes[0].table == pml4
    &&& nodes[0].level == 0
    &&& forall|j: int| 0 <= j < nodes.len() ==> #[trigger] node_ok(s, pml4, nodes, seen, j, i, k)
    &&& forall|a: int, b: int|
        0 <= a < nodes.len() && 0 <= b < nodes.len() && a != b ==> (#[trigger] nodes[a]).table != (
        #[trigger] nodes[b]).table
    &&& forall|f: int| 0 <= f < seen.len() && #[trigger] seen[f] ==> exists|j: int| #[trigger] marked(nodes, j, f)
    &&& forall|p: int, n: int|
        0 <= p < nodes.len() && 0 <= n < 512 && before(p, n, i, k) && nodes[p].level < 3 && links(
            #[trigger] entry(s.ram, nodes[p].table, n),
        ) ==> exists|j: int| #[trigger] links_from(nodes, j, p, n)
}

/// An address that goes where `v` goes down to `level`, and through entry `k`
/// there.
spec fn turned(v: u64, level: int, k: int) -> u64 {
    composed(
        if level > 0 {
            index(v, 0)
        } else {
            k
        },
        if level > 1 {
            index(v, 1)
        } else if level == 1 {
            k
        } else {
            0
        },
        if level > 2 {
            index(v, 2)
        } else if level == 2 {
            k
        } else {
            0
        },
        0,
    )
}

proof fn lemma_turned(v: u64, level: int, k: int)
    requires
        0 <= level <= 2,
        0 <= k < 512,
    ensures
        same_prefix(turned(v, level, k), v, level),
        index(turned(v, level, k), level) == k,
{
    lemma_composed(
        if level > 0 {
            index(v, 0)
        } else {
            k
        },
        if level > 1 {
            index(v, 1)
        } else if level == 1 {
            k
        } else {
            0
        },
        if level > 2 {
            index(v, 2)
        } else if level == 2 {
            k
        } else {
            0
        },
        0,
    );
}

/// The table that entry `k` of a table links is on the way to an address.
proof fn lemma_linked(s: Mem, pml4: u64, v: u64, level: int, t: u64, k: int)
    requires
        0 <= level <= 2,
        0 <= k < 512,
        table_at(s.ram, pml4, v, level) == Some(t),
        links(entry(s.ram, t, k)),
    ensures
        table_at(s.ram, pml4, turned(v, level, k), level + 1) == Some(target(entry(s.ram, t, k))),
{
    lemma_turned(v, level, k);
    lemma_same_tables(s.ram, pml4, turned(v, level, k), v, level);
}

/// Nothing to follow at an entry that links nothing.
proof fn lemma_skipped(s: Mem, pml4: u64, nodes: Seq<Node>, seen: Seq<bool>, i: int, k: int)
    requires
        followed(s, pml4, nodes, seen, i, k),
        0 <= i < nodes.len(),
        !links(entry(s.ram, nodes[i].table, k)),
    ensures
        followed(s, pml4, nodes, seen, i, k + 1),
{
    assert forall|j: int| 0 <= j < nodes.len() implies #[trigger] node_ok(s, pml4, nodes, seen, j, i, k + 1) by {
        assert(node_ok(s, pml4, nodes, seen, j, i, k));
    }
}

/// All entries of one table have been followed, or none needs to be.
proof fn lemma_passed(s: Mem, pml4: u64, nodes: Seq<Node>, seen: Seq<bool>, i: int)
    requires
        followed(s, pml4, nodes, seen, i, 512),
    ensures
        followed(s, pml4, nodes, seen, i + 1, 0),
{
    assert forall|j: int| 0 <= j < nodes.len() implies #[trigger] node_ok(s, pml4, nodes, seen, j, i + 1, 0) by {
        assert(node_ok(s, pml4, nodes, seen, j, i, 512));
    }
}

/// Following an entry to a table that has not been seen.
#[verifier::spinoff_prover]
#[verifier::rlimit(40)]
proof fn lemma_pushed(s: Mem, pml4: u64, nodes: Seq<Node>, seen: Seq<bool>, i: int, k: int)
    requires
        followed(s, pml4, nodes, seen, i, k),
        0 <= i < nodes.len(),
        0 <= k < 512,
        nodes[i].level < 3,
        links(entry(s.ram, nodes[i].table, k)),
        in_ram(s.ram, target(entry(s.ram, nodes[i].table, k))),
        not_free(s.frames, target(entry(s.ram, nodes[i].table, k))),
        target(entry(s.ram, nodes[i].table, k)) / FRAME_SIZE < seen.len(),
        !seen[(target(entry(s.ram, nodes[i].table, k)) / FRAME_SIZE) as int],
    ensures
        followed(
            s,
            pml4,
            nodes.push(child(s, nodes[i], i, k)),
            seen.update((target(entry(s.ram, nodes[i].table, k)) / FRAME_SIZE) as int, true),
            i,
            k + 1,
        ),
{
    let x = child(s, nodes[i], i, k);
    let more = nodes.push(x);
    let f = (x.table / FRAME_SIZE) as int;
    let marks = seen.update(f, true);
    assert(node_ok(s, pml4, nodes, seen, i, i, k));
    lemma_linked(s, pml4, nodes[i].virt, nodes[i].level, nodes[i].table, k);
    lemma_turned(nodes[i].virt, nodes[i].level, k);
    assert forall|j: int| 0 <= j < more.len() implies #[trigger] node_ok(s, pml4, more, marks, j, i, k + 1) by {
        if j < nodes.len() {
            assert(node_ok(s, pml4, nodes, seen, j, i, k));
        }
    }
    assert forall|a: int, b: int| 0 <= a < more.len() && 0 <= b < more.len() && a != b implies (
    #[trigger] more[a]).table != (#[trigger] more[b]).table by {
        if a < nodes.len() {
            assert(node_ok(s, pml4, nodes, seen, a, i, k));
        }
        if b < nodes.len() {
            assert(node_ok(s, pml4, nodes, seen, b, i, k));
        }
    }
    assert forall|g: int| 0 <= g < marks.len() && #[trigger] marks[g] implies exists|j: int|
        #[trigger] marked(more, j, g) by {
        if g == f {
            assert(marked(more, nodes.len() as int, g));
        } else {
            assert(seen[g]);
            let j = choose|j: int| #[trigger] marked(nodes, j, g);
            assert(marked(more, j, g));
        }
    }
    assert forall|p: int, n: int|
        0 <= p < more.len() && 0 <= n < 512 && before(p, n, i, k + 1) && more[p].level < 3 && links(
            #[trigger] entry(s.ram, more[p].table, n),
        ) implies exists|j: int| #[trigger] links_from(more, j, p, n) by {
        if p == i && n == k {
            assert(links_from(more, nodes.len() as int, p, n));
        } else {
            assert(before(p, n, i, k));
            assert(links(entry(s.ram, nodes[p].table, n)));
            let j = choose|j: int| #[trigger] links_from(nodes, j, p, n);
            assert(links_from(more, j, p, n));
        }
    }
}

spec fn child(s: Mem, x: Node, i: int, k: int) -> Node {
    Node {
        table: target(entry(s.ram, x.table, k)),
        virt: turned(x.virt, x.level, k),
        level: x.level + 1,
        parent: i,
        slot: k,
    }
}

/// An entry that links a frame that cannot be a table, or one that was found
/// before, shows that the tables are not in order.
#[verifier::spinoff_prover]
#[verifier::rlimit(40)]
proof fn lemma_refused(s: Mem, pml4: u64, nodes: Seq<Node>, seen: Seq<bool>, i: int, k: int)
    requires
        followed(s, pml4, nodes, seen, i, k),
        0 <= i < nodes.len(),
        0 <= k < 512,
        nodes[i].level < 3,
        links(entry(s.ram, nodes[i].table, k)),
        ({
            let t = target(entry(s.ram, nodes[i].table, k));
            ||| !in_ram(s.ram, t)
            ||| !not_free(s.frames, t)
            ||| t / FRAME_SIZE < seen.len() && seen[(t / FRAME_SIZE) as int]
        }),
    ensures
        !(tables_ok(s.ram, pml4) && tables_used(s, pml4)),
{
    let t = target(entry(s.ram, nodes[i].table, k));
    let x = nodes[i];
    let v = turned(x.virt, x.level, k);
    assert(node_ok(s, pml4, nodes, seen, i, i, k));
    lemma_linked(s, pml4, x.virt, x.level, x.table, k);
    lemma_turned(x.virt, x.level, k);
    if tables_ok(s.ram, pml4) && tables_used(s, pml4) {
        assert(path_ok(s.ram, pml4, v) && path_used(s, pml4, v));
        assert(in_ram(s.ram, t) && not_free(s.frames, t));
        assert(seen[(t / FRAME_SIZE) as int]);
        let j = choose|j: int| #[trigger] marked(nodes, j, (t / FRAME_SIZE) as int);
        let y = nodes[j];
        assert(node_ok(s, pml4, nodes, seen, j, i, k));
        assert(y.table == t);
        lemma_tree(s.ram, pml4, v, x.level + 1, y.virt, y.level);
        let q = nodes[y.parent];
        assert(node_ok(s, pml4, nodes, seen, y.parent, i, k));
        lemma_same_tables(s.ram, pml4, q.virt, x.virt, x.level);
        assert(q.table == x.table);
        assert(y.parent == i);
        assert(y.slot == k);
    }
}

/// Every table on the way to an address has been found, where it is.
proof fn lemma_found(s: Mem, pml4: u64, nodes: Seq<Node>, seen: Seq<bool>, i: int, v: u64, n: int) -> (j: int)
    requires
        followed(s, pml4, nodes, seen, i, 0),
        forall|p: int| 0 <= p < nodes.len() && (#[trigger] nodes[p]).level < 3 ==> p < i,
        0 <= n <= 3,
        table_at(s.ram, pml4, v, n) is Some,
    ensures
        0 <= j < nodes.len(),
        table_at(s.ram, pml4, v, n) == Some(nodes[j].table),
        nodes[j].level == n,
        same_prefix(nodes[j].virt, v, n),
    decreases n,
{
    if n <= 0 {
        0
    } else {
        let p = lemma_found(s, pml4, nodes, seen, i, v, n - 1);
        let k = index(v, n - 1);
        assert(links(entry(s.ram, nodes[p].table, k)));
        assert(before(p, k, i, 0));
        let j = choose|j: int| #[trigger] links_from(nodes, j, p, k);
        assert(node_ok(s, pml4, nodes, seen, j, i, 0));
        lemma_same_tables(s.ram, pml4, nodes[j].virt, v, n);
        j
    }
}

/// Once every entry has been followed, the tables are in order.
proof fn lemma_surveyed(s: Mem, pml4: u64, nodes: Seq<Node>, seen: Seq<bool>, i: int)
    requires
        followed(s, pml4, nodes, seen, i, 0),
        forall|p: int| 0 <= p < nodes.len() && (#[trigger] nodes[p]).level < 3 ==> p < i,
    ensures
        tables_ok(s.ram, pml4),
        tables_used(s, pml4),
{
    assert forall|v: u64| path_ok(s.ram, pml4, v) by {
        assert forall|n: int| 0 <= n <= 3 implies (#[trigger] table_at(s.ram, pml4, v, n) matches Some(t) ==> in_ram(
            s.ram,
            t,
        )) by {
            if table_at(s.ram, pml4, v, n) is Some {
                let j = lemma_found(s, pml4, nodes, seen, i, v, n);
                assert(node_ok(s, pml4, nodes, seen, j, i, 0));
            }
        }
    }
    assert forall|v: u64| path_used(s, pml4, v) by {
        assert forall|n: int| 0 <= n <= 3 implies (#[trigger] table_at(s.ram, pml4, v, n) matches Some(t)
            ==> not_free(s.frames, t)) by {
            if table_at(s.ram, pml4, v, n) is Some {
                let j = lemma_found(s, pml4, nodes, seen, i, v, n);
                assert(node_ok(s, pml4, nodes, seen, j, i, 0));
            }
        }
    }
    assert(tree(s.ram, pml4)) by {
        reveal(tree);
        assert forall|v: u64, n: int, w: u64, k: int|
            0 <= n <= 3 && 0 <= k <= 3 && (#[trigger] table_at(s.ram, pml4, v, n)) is Some && table_at(
                s.ram,
                pml4,
                v,
                n,
            ) == (#[trigger] table_at(s.ram, pml4, w, k)) implies n == k && same_prefix(v, w, n) by {
            let a = lemma_found(s, pml4, nodes, seen, i, v, n);
            let b = lemma_found(s, pml4, nodes, seen, i, w, k);
            assert(nodes[a].table == nodes[b].table);
            assert(a == b);
        }
    }
}

/// Whether a frame can hold a table: it lies in memory, and the allocator will
/// not hand it out.
fn can_hold(mem: &Memory, t: u64) -> (r: bool)
    requires
        mem.wf(),
    ensures
        r == (in_ram(mem.ram@, t) && not_free(mem@.frames, t)),
{
    let n: u64 = mem.ram.len() as u64;
    t % 4096 == 0 && t / 4096 < n / 512 && !frame_free(&mem.pmm, t / FRAME_SIZE)
}

/// Whether a table is on the way to addresses that belong to programs; of the
/// root that is not said.
spec fn sides(nodes: Seq<Node>, low: Seq<bool>) -> bool {
    &&& low.len() == nodes.len()
    &&& forall|j: int|
        0 <= j < nodes.len() && (#[trigger] nodes[j]).level > 0 ==> low[j] == lower(nodes[j].virt)
}

/// The tables of an address space, level by level: where each is, and whether
/// it is on the way to addresses that belong to programs. `seen` has the
/// frames that they are in.
struct Found {
    tables: Vec<u64>,
    low: Vec<bool>,
    seen: Vec<bool>,
    last: usize,
    nodes: Ghost<Seq<Node>>,
}

impl Found {
    /// All tables have been found, those of the last level from `last` on.
    spec fn wf(self, s: Mem, pml4: u64) -> bool {
        let nodes = self.nodes@;
        &&& self.seen@.len() == s.ram.len() / 512
        &&& self.last <= nodes.len()
        &&& self.tables@.len() == nodes.len()
        &&& forall|j: int| 0 <= j < nodes.len() ==> (#[trigger] nodes[j]).table == self.tables@[j]
        &&& forall|j: int| 0 <= j < nodes.len() ==> ((#[trigger] nodes[j]).level == 3 <==> self.last <= j)
        &&& sides(nodes, self.low@)
        &&& followed(s, pml4, nodes, self.seen@, self.last as int, 0)
    }
}

/// Finds the tables of an address space; `None` if they are not in order.
#[verifier::spinoff_prover]
#[verifier::rlimit(60)]
fn explore(mem: &Memory, pml4: u64) -> (r: Option<Found>)
    requires
        mem.wf(),
    ensures
        match r {
            None => !(tables_ok(mem.ram@, pml4) && tables_used(mem@, pml4)),
            Some(f) => f.wf(mem@, pml4),
        },
{
    let ghost s = mem@;
    if !can_hold(mem, pml4) {
        assert(table_at(s.ram, pml4, 0, 0) == Some(pml4));
        assert(!(path_ok(s.ram, pml4, 0) && path_used(s, pml4, 0)));
        return None;
    }
    let frames: usize = mem.ram.len() / 512;
    let mut seen: Vec<bool> = Vec::new();
    for f in 0..frames
        invariant
            seen@.len() == f,
            forall|g: int| 0 <= g < f ==> !#[trigger] seen@[g],
    {
        seen.push(false);
    }
    let mut found: Vec<u64> = Vec::new();
    let mut low: Vec<bool> = Vec::new();
    found.push(pml4);
    low.push(true);
    seen.set((pml4 / FRAME_SIZE) as usize, true);
    let ghost mut nodes: Seq<Node> = seq![Node { table: pml4, virt: 0, level: 0, parent: -1, slot: -1 }];
    proof {
        assert(marked(nodes, 0, (pml4 / FRAME_SIZE) as int));
        assert(table_at(s.ram, pml4, 0, 0) == Some(pml4));
        assert(node_ok(s, pml4, nodes, seen@, 0, 0, 0));
        assert(followed(s, pml4, nodes, seen@, 0, 0));
    }
    let mut start: usize = 0;
    for level in 0..3u64
        invariant
            s == mem@,
            mem.wf(),
            frames == mem.ram@.len() / 512,
            seen@.len() == frames,
            start <= found@.len(),
            found@.len() == nodes.len(),
            sides(nodes, low@),
            forall|j: int| 0 <= j < nodes.len() ==> (#[trigger] nodes[j]).table == found@[j],
            forall|j: int| 0 <= j < start ==> (#[trigger] nodes[j]).level < level,
            forall|j: int| start <= j < nodes.len() ==> (#[trigger] nodes[j]).level == level,
            followed(s, pml4, nodes, seen@, start as int, 0),
    {
        let end: usize = found.len();
        for i in start..end
            invariant
                s == mem@,
                mem.wf(),
                level < 3,
                frames == mem.ram@.len() / 512,
                seen@.len() == frames,
                start <= end <= found@.len(),
                found@.len() == nodes.len(),
                sides(nodes, low@),
                forall|j: int| 0 <= j < nodes.len() ==> (#[trigger] nodes[j]).table == found@[j],
                forall|j: int| 0 <= j < start ==> (#[trigger] nodes[j]).level < level,
                forall|j: int| start <= j < end ==> (#[trigger] nodes[j]).level == level,
                forall|j: int| end <= j < nodes.len() ==> (#[trigger] nodes[j]).level == level + 1,
                followed(s, pml4, nodes, seen@, i as int, 0),
        {
            for k in 0..512usize
                invariant
                    s == mem@,
                    mem.wf(),
                    level < 3,
                    frames == mem.ram@.len() / 512,
                    seen@.len() == frames,
                    start <= i < end <= found@.len(),
                    found@.len() == nodes.len(),
                    sides(nodes, low@),
                    forall|j: int| 0 <= j < nodes.len() ==> (#[trigger] nodes[j]).table == found@[j],
                    forall|j: int| 0 <= j < start ==> (#[trigger] nodes[j]).level < level,
                    forall|j: int| start <= j < end ==> (#[trigger] nodes[j]).level == level,
                    forall|j: int| end <= j < nodes.len() ==> (#[trigger] nodes[j]).level == level + 1,
                    followed(s, pml4, nodes, seen@, i as int, k as int),
            {
                assert(node_ok(s, pml4, nodes, seen@, i as int, i as int, k as int));
                let e: u64 = read_entry(&mem.ram, found[i], k);
                if e & PAGE_PRESENT != 0 && e & PAGE_HUGE == 0 {
                    let t: u64 = e & ADDR_MASK;
                    proof {
                        lemma_target_aligned(e);
                    }
                    if !can_hold(mem, t) || seen[(t / FRAME_SIZE) as usize] {
                        proof {
                            lemma_refused(s, pml4, nodes, seen@, i as int, k as int);
                        }
                        return None;
                    }
                    let side: bool = if level == 0 {
                        k < 256
                    } else {
                        low[i]
                    };
                    proof {
                        lemma_pushed(s, pml4, nodes, seen@, i as int, k as int);
                        lemma_turned(nodes[i as int].virt, nodes[i as int].level, k as int);
                        nodes = nodes.push(child(s, nodes[i as int], i as int, k as int));
                    }
                    found.push(t);
                    low.push(side);
                    seen.set((t / FRAME_SIZE) as usize, true);
                } else {
                    proof {
                        lemma_skipped(s, pml4, nodes, seen@, i as int, k as int);
                    }
                }
            }
            proof {
                lemma_passed(s, pml4, nodes, seen@, i as int);
            }
        }
        start = end;
    }
    Some(Found { tables: found, low, seen, last: start, nodes: Ghost(nodes) })
}

/// Whether the tables of an address space all lie in memory, are all marked
/// used or not tracked, and form a tree.
pub fn survey(mem: &Memory, pml4: u64) -> (r: bool)
    requires
        mem.wf(),
    ensures
        r == (tables_ok(mem.ram@, pml4) && tables_used(mem@, pml4)),
{
    match explore(mem, pml4) {
        None => false,
        Some(f) => {
            proof {
                lemma_surveyed(mem@, pml4, f.nodes@, f.seen@, f.last as int);
            }
            true
        },
    }
}

// ---- What programs have mapped ----

/// Whether entry `k` of table number `j` maps a page of a program.
spec fn maps(s: Mem, nodes: Seq<Node>, j: int, k: int) -> bool {
    &&& 0 <= j < nodes.len()
    &&& 0 <= k < 512
    &&& nodes[j].level == 3
    &&& lower(nodes[j].virt)
    &&& present(entry(s.ram, nodes[j].table, k))
}

/// The frame that entry `k` of table number `j` maps.
spec fn mapped_frame(s: Mem, nodes: Seq<Node>, j: int, k: int) -> u64 {
    target(entry(s.ram, nodes[j].table, k))
}

/// Whether a page that was met has frame `f`.
spec fn met(s: Mem, nodes: Seq<Node>, j: int, k: int, i: int, n: int, f: int) -> bool {
    maps(s, nodes, j, k) && before(j, k, i, n) && mapped_frame(s, nodes, j, k) / FRAME_SIZE == f
}

/// What is known once the pages before entry `n` of table number `i` have been
/// looked at.
spec fn looked_at(s: Mem, pml4: u64, nodes: Seq<Node>, seen: Seq<bool>, i: int, n: int) -> bool {
    &&& seen.len() == s.ram.len() / 512
    &&& forall|j: int, k: int|
        #![trigger mapped_frame(s, nodes, j, k)]
        maps(s, nodes, j, k) && before(j, k, i, n) ==> {
            let q = mapped_frame(s, nodes, j, k);
            &&& data_frame(s, pml4, q)
            &&& seen[(q / FRAME_SIZE) as int]
        }
    &&& forall|j: int, k: int, a: int, b: int|
        #![trigger mapped_frame(s, nodes, j, k), mapped_frame(s, nodes, a, b)]
        maps(s, nodes, j, k) && before(j, k, i, n) && maps(s, nodes, a, b) && before(a, b, i, n) && mapped_frame(
            s,
            nodes,
            j,
            k,
        ) == mapped_frame(s, nodes, a, b) ==> j == a && k == b
    &&& forall|j: int| 0 <= j < nodes.len() ==> seen[((#[trigger] nodes[j]).table / FRAME_SIZE) as int]
    &&& forall|f: int|
        0 <= f < seen.len() && #[trigger] seen[f] ==> (exists|j: int| #[trigger] marked(nodes, j, f)) || (exists|
            j: int,
            k: int,
        | #[trigger] met(s, nodes, j, k, i, n, f))
}

/// An address of the page that entry `k` of a table of the last level maps.
spec fn page_of(v: u64, k: int) -> u64 {
    composed(index(v, 0), index(v, 1), index(v, 2), k)
}

proof fn lemma_page_of(s: Mem, pml4: u64, v: u64, t: u64, k: int)
    requires
        0 <= k < 512,
        table_at(s.ram, pml4, v, 3) == Some(t),
        present(entry(s.ram, t, k)),
    ensures
        same_prefix(page_of(v, k), v, 3),
        index(page_of(v, k), 3) == k,
        leaf_of(s.ram, pml4, page_of(v, k)) == Some(entry(s.ram, t, k)),
        lower(v) ==> lower(page_of(v, k)),
{
    lemma_composed(index(v, 0), index(v, 1), index(v, 2), k);
    lemma_same_tables(s.ram, pml4, page_of(v, k), v, 3);
}

/// Nothing to look at where a program has no page.
proof fn lemma_no_page(s: Mem, pml4: u64, nodes: Seq<Node>, seen: Seq<bool>, i: int, n: int)
    requires
        looked_at(s, pml4, nodes, seen, i, n),
        !maps(s, nodes, i, n),
    ensures
        looked_at(s, pml4, nodes, seen, i, n + 1),
{
    assert forall|f: int| 0 <= f < seen.len() && #[trigger] seen[f] implies (exists|j: int| #[trigger] marked(
        nodes,
        j,
        f,
    )) || (exists|j: int, k: int| #[trigger] met(s, nodes, j, k, i, n + 1, f)) by {
        if !exists|j: int| #[trigger] marked(nodes, j, f) {
            let (j, k) = choose|j: int, k: int| #[trigger] met(s, nodes, j, k, i, n, f);
            assert(met(s, nodes, j, k, i, n + 1, f));
        }
    }
}

/// A table whose pages have all been looked at, or that has none.
proof fn lemma_next_table(s: Mem, pml4: u64, nodes: Seq<Node>, seen: Seq<bool>, i: int, n: int)
    requires
        looked_at(s, pml4, nodes, seen, i, n),
        n == 512 || 0 <= i < nodes.len() && !lower(nodes[i].virt),
    ensures
        looked_at(s, pml4, nodes, seen, i + 1, 0),
{
    assert forall|f: int| 0 <= f < seen.len() && #[trigger] seen[f] implies (exists|j: int| #[trigger] marked(
        nodes,
        j,
        f,
    )) || (exists|j: int, k: int| #[trigger] met(s, nodes, j, k, i + 1, 0, f)) by {
        if !exists|j: int| #[trigger] marked(nodes, j, f) {
            let (j, k) = choose|j: int, k: int| #[trigger] met(s, nodes, j, k, i, n, f);
            assert(met(s, nodes, j, k, i + 1, 0, f));
        }
    }
}

/// A page with a frame of its own.
#[verifier::spinoff_prover]
#[verifier::rlimit(40)]
proof fn lemma_page_met(s: Mem, pml4: u64, nodes: Seq<Node>, seen: Seq<bool>, last: int, old: Seq<bool>, i: int, n: int)
    requires
        followed(s, pml4, nodes, old, last, 0),
        forall|p: int| 0 <= p < nodes.len() && (#[trigger] nodes[p]).level < 3 ==> p < last,
        looked_at(s, pml4, nodes, seen, i, n),
        maps(s, nodes, i, n),
        in_ram(s.ram, mapped_frame(s, nodes, i, n)),
        not_free(s.frames, mapped_frame(s, nodes, i, n)),
        mapped_frame(s, nodes, i, n) / FRAME_SIZE < s.frames.used.len(),
        !seen[(mapped_frame(s, nodes, i, n) / FRAME_SIZE) as int],
    ensures
        looked_at(
            s,
            pml4,
            nodes,
            seen.update((mapped_frame(s, nodes, i, n) / FRAME_SIZE) as int, true),
            i,
            n + 1,
        ),
{
    let q = mapped_frame(s, nodes, i, n);
    let f0 = (q / FRAME_SIZE) as int;
    let marks = seen.update(f0, true);
    assert(!is_table(s.ram, pml4, q)) by {
        if is_table(s.ram, pml4, q) {
            let (w, m) = choose|w: u64, m: int| 0 <= m <= 3 && #[trigger] table_at(s.ram, pml4, w, m) == Some(q);
            let j = lemma_found(s, pml4, nodes, old, last, w, m);
            assert(seen[(nodes[j].table / FRAME_SIZE) as int]);
        }
    }
    assert(data_frame(s, pml4, q));
    assert forall|j: int, k: int, a: int, b: int|
        #![trigger mapped_frame(s, nodes, j, k), mapped_frame(s, nodes, a, b)]
        maps(s, nodes, j, k) && before(j, k, i, n + 1) && maps(s, nodes, a, b) && before(a, b, i, n + 1)
            && mapped_frame(s, nodes, j, k) == mapped_frame(s, nodes, a, b) implies j == a && k == b by {
        if before(j, k, i, n) {
            assert(seen[(mapped_frame(s, nodes, j, k) / FRAME_SIZE) as int]);
        }
        if before(a, b, i, n) {
            assert(seen[(mapped_frame(s, nodes, a, b) / FRAME_SIZE) as int]);
        }
    }
    assert forall|j: int| 0 <= j < nodes.len() implies marks[((#[trigger] nodes[j]).table / FRAME_SIZE) as int] by {
        assert(node_ok(s, pml4, nodes, old, j, last, 0));
        assert(seen[(nodes[j].table / FRAME_SIZE) as int]);
    }
    assert forall|f: int| 0 <= f < marks.len() && #[trigger] marks[f] implies (exists|j: int| #[trigger] marked(
        nodes,
        j,
        f,
    )) || (exists|j: int, k: int| #[trigger] met(s, nodes, j, k, i, n + 1, f)) by {
        if f == f0 {
            assert(met(s, nodes, i, n, i, n + 1, f));
        } else {
            assert(seen[f]);
            if !exists|j: int| #[trigger] marked(nodes, j, f) {
                let (j, k) = choose|j: int, k: int| #[trigger] met(s, nodes, j, k, i, n, f);
                assert(met(s, nodes, j, k, i, n + 1, f));
            }
        }
    }
}

/// A page with a frame that cannot hold data, or that is a table or another
/// page's, shows that the pages are not in order.
#[verifier::spinoff_prover]
#[verifier::rlimit(40)]
proof fn lemma_page_refused(
    s: Mem,
    pml4: u64,
    nodes: Seq<Node>,
    seen: Seq<bool>,
    last: int,
    old: Seq<bool>,
    i: int,
    n: int,
)
    requires
        followed(s, pml4, nodes, old, last, 0),
        looked_at(s, pml4, nodes, seen, i, n),
        maps(s, nodes, i, n),
        ({
            let q = mapped_frame(s, nodes, i, n);
            ||| !in_ram(s.ram, q)
            ||| !not_free(s.frames, q)
            ||| q / FRAME_SIZE >= s.frames.used.len()
            ||| q / FRAME_SIZE < seen.len() && seen[(q / FRAME_SIZE) as int]
        }),
    ensures
        !data_apart(s, pml4),
{
    let q = mapped_frame(s, nodes, i, n);
    let v = page_of(nodes[i].virt, n);
    assert(node_ok(s, pml4, nodes, old, i, last, 0));
    lemma_page_of(s, pml4, nodes[i].virt, nodes[i].table, n);
    reveal(data_apart);
    if data_apart(s, pml4) {
        assert(data_frame(s, pml4, q));
        let f = (q / FRAME_SIZE) as int;
        assert(seen[f]);
        lemma_target_aligned(entry(s.ram, nodes[i].table, n));
        if exists|j: int| #[trigger] marked(nodes, j, f) {
            let j = choose|j: int| #[trigger] marked(nodes, j, f);
            assert(node_ok(s, pml4, nodes, old, j, last, 0));
            assert(nodes[j].table == q);
            assert(table_at(s.ram, pml4, nodes[j].virt, nodes[j].level) == Some(q));
        } else {
            let (j, k) = choose|j: int, k: int| #[trigger] met(s, nodes, j, k, i, n, f);
            assert(node_ok(s, pml4, nodes, old, j, last, 0));
            let w = page_of(nodes[j].virt, k);
            lemma_page_of(s, pml4, nodes[j].virt, nodes[j].table, k);
            assert(data_frame(s, pml4, mapped_frame(s, nodes, j, k)));
            assert(mapped_frame(s, nodes, j, k) == q);
            assert(same_page(v, w));
            lemma_same_tables(s.ram, pml4, nodes[i].virt, nodes[j].virt, 3);
            assert(nodes[i].table == nodes[j].table);
            assert(i == j && n == k);
        }
    }
}

/// Once every page has been looked at, the pages are in order.
proof fn lemma_all_met(s: Mem, pml4: u64, nodes: Seq<Node>, seen: Seq<bool>, last: int, old: Seq<bool>)
    requires
        followed(s, pml4, nodes, old, last, 0),
        forall|p: int| 0 <= p < nodes.len() && (#[trigger] nodes[p]).level < 3 ==> p < last,
        looked_at(s, pml4, nodes, seen, nodes.len() as int, 0),
    ensures
        data_apart(s, pml4),
{
    reveal(data_apart);
    assert forall|v: u64| lower(v) implies (#[trigger] leaf_of(s.ram, pml4, v) matches Some(e) ==> data_frame(
        s,
        pml4,
        target(e),
    )) by {
        if leaf_of(s.ram, pml4, v) is Some {
            let j = lemma_found(s, pml4, nodes, old, last, v, 3);
            assert(maps(s, nodes, j, index(v, 3)));
            assert(data_frame(s, pml4, mapped_frame(s, nodes, j, index(v, 3))));
        }
    }
    assert forall|v: u64, w: u64|
        lower(v) && lower(w) && (#[trigger] leaf_of(s.ram, pml4, v)) is Some && (#[trigger] leaf_of(s.ram, pml4, w))
            is Some && target(leaf_of(s.ram, pml4, v)->0) == target(leaf_of(s.ram, pml4, w)->0) implies same_page(
        v,
        w,
    ) by {
        let j = lemma_found(s, pml4, nodes, old, last, v, 3);
        let a = lemma_found(s, pml4, nodes, old, last, w, 3);
        assert(maps(s, nodes, j, index(v, 3)) && maps(s, nodes, a, index(w, 3)));
        assert(mapped_frame(s, nodes, j, index(v, 3)) == mapped_frame(s, nodes, a, index(w, 3)));
        assert(j == a);
    }
}

/// Whether an address space is in order: its tables are, and every page that
/// a program has is in a frame of its own that holds no table.
#[verifier::spinoff_prover]
#[verifier::rlimit(60)]
pub fn survey_space(mem: &Memory, pml4: u64) -> (r: bool)
    requires
        mem.wf(),
    ensures
        r == space_ok(mem@, pml4),
{
    let ghost s = mem@;
    let found = match explore(mem, pml4) {
        None => {
            proof {
                reveal(space_ok);
            }
            return false;
        },
        Some(f) => f,
    };
    let ghost nodes = found.nodes@;
    let ghost old = found.seen@;
    let ghost last = found.last as int;
    let tables = found.tables;
    let low = found.low;
    let mut seen = found.seen;
    let known_frames: u64 = crate::pmm::stats(&mem.pmm).0;
    let count: usize = tables.len();
    let start: usize = found.last;
    proof {
        lemma_surveyed(s, pml4, nodes, old, last);
        assert forall|j: int| 0 <= j < nodes.len() implies old[((#[trigger] nodes[j]).table / FRAME_SIZE) as int] by {
            assert(node_ok(s, pml4, nodes, old, j, last, 0));
        }
        assert(looked_at(s, pml4, nodes, old, last, 0)) by {
            assert forall|j: int, k: int| maps(s, nodes, j, k) && before(j, k, last, 0) implies false by {
                assert(nodes[j].level == 3);
            }
        }
    }
    for i in start..count
        invariant
            s == mem@,
            mem.wf(),
            known_frames == s.frames.used.len(),
            last == start,
            count == nodes.len(),
            count == tables@.len(),
            start <= count,
            tables_ok(s.ram, pml4),
            tables_used(s, pml4),
            forall|j: int| 0 <= j < nodes.len() ==> (#[trigger] nodes[j]).table == tables@[j],
            forall|j: int| 0 <= j < nodes.len() ==> ((#[trigger] nodes[j]).level == 3 <==> start <= j),
            sides(nodes, low@),
            followed(s, pml4, nodes, old, last, 0),
            looked_at(s, pml4, nodes, seen@, i as int, 0),
    {
        assert(node_ok(s, pml4, nodes, old, i as int, last, 0));
        assert(nodes[i as int].level == 3);
        if low[i] {
            for k in 0..512usize
                invariant
                    s == mem@,
                    mem.wf(),
                    known_frames == s.frames.used.len(),
                    last == start,
                    count == nodes.len(),
                    count == tables@.len(),
                    start <= i < count,
                    tables_ok(s.ram, pml4),
                    tables_used(s, pml4),
                    in_ram(s.ram, tables@[i as int]),
                    nodes[i as int].table == tables@[i as int],
                    nodes[i as int].level == 3,
                    lower(nodes[i as int].virt),
                    forall|j: int| 0 <= j < nodes.len() ==> ((#[trigger] nodes[j]).level == 3 <==> start <= j),
                    followed(s, pml4, nodes, old, last, 0),
                    looked_at(s, pml4, nodes, seen@, i as int, k as int),
            {
                let e: u64 = read_entry(&mem.ram, tables[i], k);
                if e & PAGE_PRESENT != 0 {
                    let q: u64 = e & ADDR_MASK;
                    proof {
                        lemma_target_aligned(e);
                        assert(maps(s, nodes, i as int, k as int));
                        assert(mapped_frame(s, nodes, i as int, k as int) == q);
                    }
                    if !can_hold(mem, q) || q / FRAME_SIZE >= known_frames || seen[(q / FRAME_SIZE) as usize] {
                        proof {
                            lemma_page_refused(s, pml4, nodes, seen@, last, old, i as int, k as int);
                            reveal(space_ok);
                        }
                        return false;
                    }
                    proof {
                        lemma_page_met(s, pml4, nodes, seen@, last, old, i as int, k as int);
                    }
                    seen.set((q / FRAME_SIZE) as usize, true);
                } else {
                    proof {
                        lemma_no_page(s, pml4, nodes, seen@, i as int, k as int);
                    }
                }
            }
            proof {
                lemma_next_table(s, pml4, nodes, seen@, i as int, 512);
            }
        } else {
            proof {
                lemma_next_table(s, pml4, nodes, seen@, i as int, 0);
            }
        }
    }
    proof {
        lemma_all_met(s, pml4, nodes, seen@, last, old);
        reveal(space_ok);
    }
    true
}

// ---- What tearing an address space down needs ----

/// Whether a table, the tables below it and the frames that they map are all
/// known to the allocator.
pub fn survey_known(mem: &Memory, table: u64, depth: u64, width: usize) -> (r: bool)
    requires
        mem.wf(),
        width <= 512,
    ensures
        r == known(mem.ram@, mem@.frames.used.len(), table, depth as nat, width as int),
    decreases depth,
{
    let count: u64 = crate::pmm::stats(&mem.pmm).0;
    let words: u64 = mem.ram.len() as u64;
    if table / FRAME_SIZE >= count {
        return false;
    }
    if depth == 0 {
        return true;
    }
    if table % 4096 != 0 || table / 4096 >= words / 512 {
        return false;
    }
    for i in 0..width
        invariant
            mem.wf(),
            width <= 512,
            depth > 0,
            in_ram(mem.ram@, table),
            forall|j: int|
                0 <= j < i && present(#[trigger] entry(mem.ram@, table, j)) ==> known(
                    mem.ram@,
                    mem@.frames.used.len(),
                    target(entry(mem.ram@, table, j)),
                    (depth - 1) as nat,
                    512,
                ) && (depth > 1 ==> !huge(entry(mem.ram@, table, j))),
    {
        let e: u64 = read_entry(&mem.ram, table, i);
        if e & PAGE_PRESENT != 0 {
            assert(present(entry(mem.ram@, table, i as int)));
            if (depth > 1 && e & PAGE_HUGE != 0) || !survey_known(mem, e & ADDR_MASK, depth - 1, 512) {
                return false;
            }
        }
    }
    true
}

} // verus!
