//! What a program that is laid out in memory finds there, and how its task
//! starts.
use crate::mmu::page_entry;
use crate::paging::{leaf_of, tables_ok, tables_used, with_root, Mem};
use crate::program_laws::{lemma_placed_entry, program_page};
use crate::space::{law_new_space_ok, law_placed, lemma_lower, space_ok, vbyte};
use crate::task::{TaskState, Tasks};
use crate::usermode::{
    laid_out, program_pages, program_part, program_placed, stack_placed, started, NO_PROGRAM, NO_STACK,
};
use crate::vm::USER_END;
use vstd::prelude::*;

verus! {

proof fn lemma_user_flags()
    by (bit_vector)
    ensures
        (2u64 | 4u64) & 0x000F_FFFF_FFFF_F000 == 0,
        (2u64 | 4u64) & 2 != 0,
        (2u64 | 4u64) & 4 != 0,
        (2u64 | 4u64) & 0x8000_0000_0000_0000 == 0,
{
}

#[verifier::spinoff_prover]
#[verifier::rlimit(40)]
proof fn lemma_program(s: Mem, a: u64, program: Seq<u8>, n: int, x: u64)
    requires
        s.wf(),
        space_ok(s, a),
        program.len() <= 0x1_0000_0000,
        0 <= n <= program_pages(program.len()),
        program_placed(s, a, program, n).1 is Ok,
        x < USER_END,
    ensures
        ({
            let s1 = program_placed(s, a, program, n).0;
            &&& s1.wf()
            &&& space_ok(s1, a)
            &&& if 0x40_0000_0000 <= x < 0x40_0000_0000 + 4096 * n {
                &&& program_page(leaf_of(s1.ram, a, x), true)
                &&& x - 0x40_0000_0000 < program.len() ==> vbyte(s1.ram, a, x) == Some(program[x - 0x40_0000_0000])
            } else {
                leaf_of(s1.ram, a, x) == leaf_of(s.ram, a, x) && vbyte(s1.ram, a, x) == vbyte(s.ram, a, x)
            }
        }),
    decreases n,
{
    if n > 0 {
        lemma_program(s, a, program, n - 1, x);
        let s1 = program_placed(s, a, program, n - 1).0;
        let at = (0x40_0000_0000 + (n - 1) * 4096) as u64;
        let data = program_part(program, n - 1);
        lemma_user_flags();
        law_placed(s1, a, at, 2u64 | 4u64, data, NO_PROGRAM);
        lemma_placed_entry(s1, a, at, 2u64 | 4u64, data, NO_PROGRAM, x);
        lemma_lower(x);
        crate::loader_laws::lemma_same_byte(at, x);
    }
}

#[verifier::spinoff_prover]
#[verifier::rlimit(40)]
proof fn lemma_stack(s: Mem, a: u64, n: int, x: u64)
    requires
        s.wf(),
        space_ok(s, a),
        0 <= n <= 4,
        stack_placed(s, a, n).1 is Ok,
        x < USER_END,
    ensures
        ({
            let s1 = stack_placed(s, a, n).0;
            &&& s1.wf()
            &&& space_ok(s1, a)
            &&& if 0x50_0000_0000 <= x < 0x50_0000_0000 + 4096 * n {
                program_page(leaf_of(s1.ram, a, x), true)
            } else {
                leaf_of(s1.ram, a, x) == leaf_of(s.ram, a, x) && vbyte(s1.ram, a, x) == vbyte(s.ram, a, x)
            }
        }),
    decreases n,
{
    if n > 0 {
        lemma_stack(s, a, n - 1, x);
        let s1 = stack_placed(s, a, n - 1).0;
        let at = (0x50_0000_0000 + (n - 1) * 4096) as u64;
        lemma_user_flags();
        law_placed(s1, a, at, 2u64 | 4u64, Seq::empty(), NO_STACK);
        lemma_placed_entry(s1, a, at, 2u64 | 4u64, Seq::empty(), NO_STACK, x);
        lemma_lower(x);
        crate::loader_laws::lemma_same_byte(at, x);
    }
}

/// A program that has been laid out has its bytes from 0x40_0000_0000 on and
/// 16 kibibytes of stack from 0x50_0000_0000 on, both its own to use, to
/// write and to run. Beside their pages it has nothing.
#[verifier::spinoff_prover]
#[verifier::rlimit(40)]
pub proof fn law_laid_out(s: Mem, source: u64, program: Seq<u8>, x: u64)
    requires
        s.wf(),
        tables_ok(s.ram, source),
        tables_used(s, source),
        program.len() <= 0x1_0000_0000,
        laid_out(s, source, program).1 is Ok,
        x < 0x8000_0000_0000,
    ensures
        ({
            let (s1, r) = laid_out(s, source, program);
            let pml4 = r->Ok_0;
            let code: int = 0x40_0000_0000;
            let stack: int = 0x50_0000_0000;
            &&& s1.wf()
            &&& space_ok(s1, pml4)
            &&& code <= x < code + program.len() ==> {
                &&& program_page(page_entry(s1.ram, pml4, x), true)
                &&& vbyte(s1.ram, pml4, x) == Some(program[x - code])
            }
            &&& stack <= x < stack + 0x4000 ==> program_page(page_entry(s1.ram, pml4, x), true)
            &&& x < code || code + program.len() + 4096 <= x < stack || stack + 0x4000 <= x ==> vbyte(
                s1.ram,
                pml4,
                x,
            ) is None
        }),
{
    let pml4 = s.frames.take().1->0;
    let fresh = Mem { ram: with_root(s.ram, pml4, source), frames: s.frames.take().0 };
    let n = program_pages(program.len());
    law_new_space_ok(s, source);
    lemma_lower(x);
    lemma_program(fresh, pml4, program, n, x);
    let s1 = program_placed(fresh, pml4, program, n).0;
    lemma_stack(s1, pml4, 4, x);
    let s2 = stack_placed(s1, pml4, 4).0;
    crate::mmu::law_walks_agree(s2.ram, pml4, x);
}

/// The task of such a program first goes where tasks enter user mode, with
/// the place of the program in the fourth word of its stack and the end of
/// the program's stack in the third. It has a slot that was free, and the
/// other tasks are as they were.
pub proof fn law_started(before: Tasks, after: Tasks, name: &'static str, pml4: u64, base: u64)
    requires
        before.slots.len() == 16,
        base + 0x8000 <= u64::MAX,
        started(before, after, name, pml4, base),
    ensures
        after == before || exists|i: int| #[trigger] joins(before, after, i, name, pml4, base),
{
    crate::task::lemma_free_slot(before.slots, 0);
    if let Some(i) = crate::task::free_slot(before.slots, 0) {
        assert(joins(before, after, i, name, pml4, base));
    }
}

/// `after` has one task more than `before`, which runs a program that has
/// been laid out.
pub open spec fn joins(before: Tasks, after: Tasks, i: int, name: &'static str, pml4: u64, base: u64) -> bool {
    &&& 0 <= i < 16
    &&& before.slots[i] is None
    &&& after.slots[i] matches Some(t)
    &&& t.id == before.next_id
    &&& after.next_id == before.next_id.wrapping_add(1)
    &&& t.name == name
    &&& t.state == TaskState::Ready
    &&& t.cr3 == pml4
    &&& t.stack@.len() == 7
    &&& t.stack@[6] == before.enter_user
    &&& t.stack@[3] == 0x40_0000_0000
    &&& t.stack@[2] == 0x50_0000_4000
    &&& t.kernel_stack_top == base + 0x8000
    &&& t.saved_rsp == base + 0x8000 - 56
    &&& after.files[t.files as int].empty()
    &&& forall|j: int| 0 <= j < 16 && j != i ==> #[trigger] after.slots[j] == before.slots[j]
}

} // verus!
