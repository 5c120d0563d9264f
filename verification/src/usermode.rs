//! The demonstration programs: one small program in a page or more of memory,
//! run twice, each time in an address space of its own.
use crate::paging::{
    new_address_space, path_ok, table_at, tables_ok, tables_used, target, with_root, Mem, Memory, ADDR_MASK,
    PAGE_USER, PAGE_WRITABLE,
};
use crate::pmm::{law_allocation, stats};
use crate::sharing::{
    beside, beside_space, law_new_space_beside, law_new_space_beside_space, law_placing_beside,
    law_placing_beside_space,
};
use crate::space::{law_new_space_ok, place_page, placed, space_ok};
use crate::task::{
    admitted, first_frame, free_slot, spawn_user, spawned, TaskTable, Tasks, STACK_SIZE, USER_HEAP_BASE,
};
use vstd::prelude::*;
use vstd::slice::{slice_subrange, slice_to_vec};

verus! {

pub const USER_CODE_BASE: u64 = 0x0000_0040_0000_0000;

pub const USER_STACK_BASE: u64 = 0x0000_0050_0000_0000;

pub const USER_STACK_SIZE: u64 = 0x4000;

pub const PAGE_SIZE: u64 = 4096;

pub const NO_PROGRAM: &'static str = "usermode: out of memory mapping the demo program";

pub const NO_STACK: &'static str = "usermode: out of memory mapping the demo user stack";

/// How many pages a program takes: at least one.
pub open spec fn program_pages(len: nat) -> int {
    if len == 0 {
        1
    } else {
        (len as int + 4095) / 4096
    }
}

/// The part of a program that goes into page `i`.
pub open spec fn program_part(program: Seq<u8>, i: int) -> Seq<u8> {
    let start = if 4096 * i < program.len() {
        4096 * i
    } else {
        program.len() as int
    };
    let end = if 4096 * i + 4096 < program.len() {
        4096 * i + 4096
    } else {
        program.len() as int
    };
    program.subrange(start, end)
}

/// Memory after the first `n` pages of a program have been placed.
pub open spec fn program_placed(s: Mem, pml4: u64, program: Seq<u8>, n: int) -> (Mem, Result<(), &'static str>)
    decreases n,
{
    if n <= 0 {
        (s, Ok(()))
    } else {
        let (s1, r) = program_placed(s, pml4, program, n - 1);
        match r {
            Err(e) => (s1, Err(e)),
            Ok(_) => placed(
                s1,
                pml4,
                (USER_CODE_BASE + (n - 1) * PAGE_SIZE) as u64,
                PAGE_WRITABLE | PAGE_USER,
                program_part(program, n - 1),
                NO_PROGRAM,
            ),
        }
    }
}

proof fn lemma_program_fail(s: Mem, pml4: u64, program: Seq<u8>, n: int, m: int)
    requires
        n <= m,
        program_placed(s, pml4, program, n).1 is Err,
    ensures
        program_placed(s, pml4, program, m) == program_placed(s, pml4, program, n),
    decreases m - n,
{
    if n < m && m > 0 {
        lemma_program_fail(s, pml4, program, n, m - 1);
    }
}

/// Memory after the first `n` pages of the stack have been placed.
pub open spec fn stack_placed(s: Mem, pml4: u64, n: int) -> (Mem, Result<(), &'static str>)
    decreases n,
{
    if n <= 0 {
        (s, Ok(()))
    } else {
        let (s1, r) = stack_placed(s, pml4, n - 1);
        match r {
            Err(e) => (s1, Err(e)),
            Ok(_) => placed(
                s1,
                pml4,
                (USER_STACK_BASE + (n - 1) * PAGE_SIZE) as u64,
                PAGE_WRITABLE | PAGE_USER,
                Seq::empty(),
                NO_STACK,
            ),
        }
    }
}

proof fn lemma_stack_fail(s: Mem, pml4: u64, n: int, m: int)
    requires
        n <= m,
        stack_placed(s, pml4, n).1 is Err,
    ensures
        stack_placed(s, pml4, m) == stack_placed(s, pml4, n),
    decreases m - n,
{
    if n < m && m > 0 {
        lemma_stack_fail(s, pml4, n, m - 1);
    }
}

/// Memory after a program has been laid out in a new address space, and that
/// address space.
pub open spec fn laid_out(s: Mem, source: u64, program: Seq<u8>) -> (Mem, Result<u64, &'static str>) {
    match s.frames.take() {
        (_, None) => (s, Err(NO_PROGRAM)),
        (frames, Some(pml4)) => {
            let fresh = Mem { ram: with_root(s.ram, pml4, source), frames };
            match program_placed(fresh, pml4, program, program_pages(program.len())) {
                (s1, Err(e)) => (s1, Err(e)),
                (s1, Ok(_)) => match stack_placed(s1, pml4, 4) {
                    (s2, Err(e)) => (s2, Err(e)),
                    (s2, Ok(_)) => (s2, Ok(pml4)),
                },
            }
        },
    }
}

proof fn lemma_program_beside(s: Mem, a: u64, program: Seq<u8>, n: int, b: u64)
    requires
        beside(s, a, b),
    ensures
        beside(program_placed(s, a, program, n).0, a, b),
        beside_space(s, a, b) ==> beside_space(program_placed(s, a, program, n).0, a, b),
    decreases n,
{
    if n > 0 {
        lemma_program_beside(s, a, program, n - 1, b);
        let (s1, r) = program_placed(s, a, program, n - 1);
        if r is Ok {
            assert((2u64 | 4u64) & 0x000F_FFFF_FFFF_F000u64 == 0) by (bit_vector);
            let at = (USER_CODE_BASE + (n - 1) * PAGE_SIZE) as u64;
            let flags = PAGE_WRITABLE | PAGE_USER;
            law_placing_beside(s1, a, at, flags, program_part(program, n - 1), NO_PROGRAM, b);
            if beside_space(s1, a, b) {
                law_placing_beside_space(s1, a, at, flags, program_part(program, n - 1), NO_PROGRAM, b);
            }
        }
    }
}

proof fn lemma_stack_beside(s: Mem, a: u64, n: int, b: u64)
    requires
        beside(s, a, b),
    ensures
        beside(stack_placed(s, a, n).0, a, b),
        beside_space(s, a, b) ==> beside_space(stack_placed(s, a, n).0, a, b),
    decreases n,
{
    if n > 0 {
        lemma_stack_beside(s, a, n - 1, b);
        let (s1, r) = stack_placed(s, a, n - 1);
        if r is Ok {
            assert((2u64 | 4u64) & 0x000F_FFFF_FFFF_F000u64 == 0) by (bit_vector);
            let at = (USER_STACK_BASE + (n - 1) * PAGE_SIZE) as u64;
            let flags = PAGE_WRITABLE | PAGE_USER;
            law_placing_beside(s1, a, at, flags, Seq::empty(), NO_STACK, b);
            if beside_space(s1, a, b) {
                law_placing_beside_space(s1, a, at, flags, Seq::empty(), NO_STACK, b);
            }
        }
    }
}

/// Laying a program out keeps the tables of the address space that its own is
/// made from in order, and with them what programs there have.
pub proof fn law_laying_out_keeps_source(s: Mem, source: u64, program: Seq<u8>)
    requires
        s.wf(),
        tables_ok(s.ram, source),
        tables_used(s, source),
    ensures
        tables_ok(laid_out(s, source, program).0.ram, source),
        tables_used(laid_out(s, source, program).0, source),
        space_ok(s, source) ==> space_ok(laid_out(s, source, program).0, source),
{
    if let Some(a) = s.frames.take().1 {
        law_new_space_beside(s, source);
        if space_ok(s, source) {
            law_new_space_beside_space(s, source);
        }
        let fresh = Mem { ram: with_root(s.ram, a, source), frames: s.frames.take().0 };
        let n = program_pages(program.len());
        lemma_program_beside(fresh, a, program, n, source);
        lemma_stack_beside(program_placed(fresh, a, program, n).0, a, 4, source);
    }
}

fn part_of(program: &[u8], i: u64) -> (r: Vec<u8>)
    requires
        i <= 0x10_0001,
    ensures
        r@ == program_part(program@, i as int),
        r@.len() <= 4096,
{
    let len: u64 = program.len() as u64;
    let start: u64 = if 4096 * i < len {
        4096 * i
    } else {
        len
    };
    let end: u64 = if 4096 * i + 4096 < len {
        4096 * i + 4096
    } else {
        len
    };
    slice_to_vec(slice_subrange(program, start as usize, end as usize))
}

fn place_program(mem: &mut Memory, pml4: u64, program: &[u8]) -> (r: Result<(), &'static str>)
    requires
        old(mem).wf(),
        space_ok(old(mem)@, pml4),
        program@.len() <= 0x1_0000_0000,
    ensures
        final(mem).wf(),
        space_ok(final(mem)@, pml4),
        (final(mem)@, r) == program_placed(old(mem)@, pml4, program@, program_pages(program@.len())),
        final(mem).cr3 == old(mem).cr3,
        final(mem).nx == old(mem).nx,
        final(mem).pmm.ready() == old(mem).pmm.ready(),
        final(mem).pmm.offset() == old(mem).pmm.offset(),
{
    let len: u64 = program.len() as u64;
    let pages: u64 = if len == 0 {
        1
    } else {
        (len + 4095) / 4096
    };
    let ghost s = mem@;
    proof {
        assert((2u64 | 4u64) & 0x000F_FFFF_FFFF_F000u64 == 0) by (bit_vector);
    }
    for i in 0..pages
        invariant
            len == program@.len(),
            len <= 0x1_0000_0000,
            pages == program_pages(program@.len()),
            pages <= 0x10_0001,
            (PAGE_WRITABLE | PAGE_USER) & ADDR_MASK == 0,
            s == old(mem)@,
            mem.wf(),
            space_ok(mem@, pml4),
            mem.cr3 == old(mem).cr3,
            mem.nx == old(mem).nx,
            mem.pmm.ready() == old(mem).pmm.ready(),
            mem.pmm.offset() == old(mem).pmm.offset(),
            program_placed(s, pml4, program@, i as int) == (mem@, Ok::<(), &'static str>(())),
    {
        proof {
            if program_placed(s, pml4, program@, i + 1).1 is Err {
                lemma_program_fail(s, pml4, program@, i + 1, pages as int);
            }
        }
        let part = part_of(program, i);
        match place_page(
            mem,
            pml4,
            USER_CODE_BASE + i * PAGE_SIZE,
            PAGE_WRITABLE | PAGE_USER,
            part.as_slice(),
            NO_PROGRAM,
        ) {
            Ok(_) => {},
            Err(e) => {
                return Err(e);
            },
        }
    }
    Ok(())
}

fn place_stack(mem: &mut Memory, pml4: u64) -> (r: Result<(), &'static str>)
    requires
        old(mem).wf(),
        space_ok(old(mem)@, pml4),
    ensures
        final(mem).wf(),
        space_ok(final(mem)@, pml4),
        (final(mem)@, r) == stack_placed(old(mem)@, pml4, 4),
        final(mem).cr3 == old(mem).cr3,
        final(mem).nx == old(mem).nx,
        final(mem).pmm.ready() == old(mem).pmm.ready(),
        final(mem).pmm.offset() == old(mem).pmm.offset(),
{
    let ghost s = mem@;
    let empty: Vec<u8> = Vec::new();
    assert(empty@ =~= Seq::empty());
    proof {
        assert((2u64 | 4u64) & 0x000F_FFFF_FFFF_F000u64 == 0) by (bit_vector);
    }
    for i in 0..4u64
        invariant
            empty@ == Seq::<u8>::empty(),
            (PAGE_WRITABLE | PAGE_USER) & ADDR_MASK == 0,
            s == old(mem)@,
            mem.wf(),
            space_ok(mem@, pml4),
            mem.cr3 == old(mem).cr3,
            mem.nx == old(mem).nx,
            mem.pmm.ready() == old(mem).pmm.ready(),
            mem.pmm.offset() == old(mem).pmm.offset(),
            stack_placed(s, pml4, i as int) == (mem@, Ok::<(), &'static str>(())),
    {
        proof {
            if stack_placed(s, pml4, i + 1).1 is Err {
                lemma_stack_fail(s, pml4, i + 1, 4);
            }
        }
        match place_page(
            mem,
            pml4,
            USER_STACK_BASE + i * PAGE_SIZE,
            PAGE_WRITABLE | PAGE_USER,
            empty.as_slice(),
            NO_STACK,
        ) {
            Ok(_) => {},
            Err(e) => {
                return Err(e);
            },
        }
    }
    Ok(())
}

/// What running a program once does to the table of tasks. Without a free slot
/// nothing runs.
pub open spec fn started(before: Tasks, after: Tasks, name: &'static str, pml4: u64, base: u64) -> bool {
    match free_slot(before.slots, 0) {
        None => after == before,
        Some(i) => {
            &&& admitted(before, after, i, None)
            &&& spawned(
                after.slots[i]->0,
                before.next_id,
                name,
                first_frame(
                    before.enter_user,
                    USER_CODE_BASE,
                    (USER_STACK_BASE + USER_STACK_SIZE) as u64,
                ),
                (base + STACK_SIZE) as u64,
                pml4,
                USER_HEAP_BASE,
                0,
                None,
                Seq::empty(),
            )
        },
    }
}

/// Runs a program once, with its kernel stack at `base`. Returns its address
/// space.
pub fn spawn_one(mem: &mut Memory, tasks: &mut TaskTable, name: &'static str, program: &[u8], base: u64) -> (r: Result<
    u64,
    &'static str,
>)
    requires
        old(mem).wf(),
        old(tasks).wf(),
        tables_ok(old(mem).ram@, target(old(mem).cr3)),
        tables_used(old(mem)@, target(old(mem).cr3)),
        program@.len() <= 0x1_0000_0000,
        base + STACK_SIZE <= u64::MAX,
    ensures
        final(mem).wf(),
        final(tasks).wf(),
        final(mem).cr3 == old(mem).cr3,
        final(mem).nx == old(mem).nx,
        final(mem).pmm.ready() == old(mem).pmm.ready(),
        final(mem).pmm.offset() == old(mem).pmm.offset(),
        tables_ok(final(mem).ram@, target(final(mem).cr3)),
        tables_used(final(mem)@, target(final(mem).cr3)),
        space_ok(old(mem)@, target(old(mem).cr3)) ==> space_ok(final(mem)@, target(final(mem).cr3)),
        (final(mem)@, r) == laid_out(old(mem)@, target(old(mem).cr3), program@),
        match r {
            Ok(pml4) => space_ok(final(mem)@, pml4) && started(old(tasks)@, final(tasks)@, name, pml4, base),
            Err(_) => final(tasks)@ == old(tasks)@,
        },
{
    let ghost source = target(mem.cr3);
    let ghost s = mem@;
    proof {
        law_laying_out_keeps_source(s, source, program@);
        law_allocation(s.frames);
        assert(path_ok(s.ram, source, 0));
        assert(table_at(s.ram, source, 0, 0) == Some(source));
        if s.frames.take().1 is Some {
            law_new_space_ok(s, source);
        }
    }
    if stats(&mem.pmm).1 == 0 {
        return Err(NO_PROGRAM);
    }
    let pml4: u64 = new_address_space(mem);
    assert(mem@ == (Mem { ram: with_root(s.ram, pml4, source), frames: s.frames.take().0 }));
    match place_program(mem, pml4, program) {
        Ok(_) => {},
        Err(e) => {
            return Err(e);
        },
    }
    match place_stack(mem, pml4) {
        Ok(_) => {},
        Err(e) => {
            return Err(e);
        },
    }
    let none: Vec<u8> = Vec::new();
    assert(none@ =~= Seq::empty());
    let _ = spawn_user(tasks, name, none, USER_CODE_BASE, USER_STACK_BASE + USER_STACK_SIZE, pml4, base);
    Ok(pml4)
}

} // verus!
