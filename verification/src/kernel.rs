//! The kernel's state as a whole, what it does on a page fault, and how a
//! program's heap grows.
use crate::fat16::Fs;
use crate::isolation::{law_placing_is_private, same_view, separate};
use crate::paging::{current_cr3, leaf_of, target, Mem, Memory, ADDR_MASK, PAGE_USER, PAGE_WRITABLE};
use crate::space::{lemma_lower, lower, place_page, placed, space_ok, vbyte};
use crate::task::{
    begin_signal_delivery, heap_end, is_delivering_signal, set_heap_end, sigaction, SavedContext, Task, TaskTable,
};
use crate::vm::{fault, faulted, Regions, USER_END};
use crate::vm_laws::{law_fault, lemma_pages_known};
use vstd::prelude::*;

verus! {

/// Everything that system calls and faults act on.
pub struct Kernel {
    pub mem: Memory,
    pub regions: Regions,
    pub tasks: TaskTable,
    pub fs: Fs,
}

impl Kernel {
    /// Some task is running, in an address space that is in order.
    pub open spec fn wf(self) -> bool {
        &&& self.mem.wf()
        &&& self.mem.pmm.ready()
        &&& self.regions.wf()
        &&& self.tasks.wf()
        &&& self.fs.wf()
        &&& self.tasks@.running() is Some
        &&& space_ok(self.mem@, self.space())
    }

    /// The address space in use.
    pub open spec fn space(self) -> u64 {
        target(self.mem.cr3)
    }

    /// The task that is running.
    pub open spec fn task(self) -> Task {
        self.tasks@.running()->0
    }

    /// `self` is `before`, but for the table of tasks.
    pub open spec fn only_tasks(self, before: Kernel) -> bool {
        self.mem == before.mem && self.regions == before.regions && self.fs == before.fs
    }

    /// `self` is `before`, but for how many sectors have been read.
    pub open spec fn only_read(self, before: Kernel) -> bool {
        &&& self.mem == before.mem
        &&& self.regions == before.regions
        &&& self.tasks == before.tasks
        &&& self.fs.only_read(before.fs)
    }

    /// The settings of the processor and the allocator that nothing here
    /// changes.
    pub open spec fn same_machine(self, before: Kernel) -> bool {
        &&& self.mem.cr3 == before.mem.cr3
        &&& self.mem.nx == before.mem.nx
        &&& self.mem.pmm.ready() == before.mem.pmm.ready()
        &&& self.mem.pmm.offset() == before.mem.pmm.offset()
    }
}

// ---- Page faults ----

/// The registers at a fault, as the fault handler finds them.
#[derive(Clone, Copy, PartialEq, Eq, Structural, Debug)]
pub struct PfFrame {
    pub r15: u64,
    pub r14: u64,
    pub r13: u64,
    pub r12: u64,
    pub r11: u64,
    pub r10: u64,
    pub r9: u64,
    pub r8: u64,
    pub rbp: u64,
    pub rdi: u64,
    pub rsi: u64,
    pub rdx: u64,
    pub rcx: u64,
    pub rbx: u64,
    pub rax: u64,
    pub error_code: u64,
    pub rip: u64,
    pub cs: u64,
    pub rflags: u64,
    pub rsp: u64,
    pub ss: u64,
}

pub const SIGSEGV: u8 = 11;

pub const SA_RESTORER: u64 = 0x0400_0000;

impl PfFrame {
    /// The registers to go on with after a signal handler has returned.
    pub open spec fn context(self) -> SavedContext {
        SavedContext {
            rip: self.rip,
            cs: self.cs,
            rflags: self.rflags,
            rsp: self.rsp,
            ss: self.ss,
            rax: self.rax,
            rbx: self.rbx,
            rcx: self.rcx,
            rdx: self.rdx,
            rsi: self.rsi,
            rdi: self.rdi,
            rbp: self.rbp,
            r8: self.r8,
            r9: self.r9,
            r10: self.r10,
            r11: self.r11,
            r12: self.r12,
            r13: self.r13,
            r14: self.r14,
            r15: self.r15,
        }
    }

    fn saved(&self) -> (r: SavedContext)
        ensures
            r == self.context(),
    {
        SavedContext {
            rip: self.rip,
            cs: self.cs,
            rflags: self.rflags,
            rsp: self.rsp,
            ss: self.ss,
            rax: self.rax,
            rbx: self.rbx,
            rcx: self.rcx,
            rdx: self.rdx,
            rsi: self.rsi,
            rdi: self.rdi,
            rbp: self.rbp,
            r8: self.r8,
            r9: self.r9,
            r10: self.r10,
            r11: self.r11,
            r12: self.r12,
            r13: self.r13,
            r14: self.r14,
            r15: self.r15,
        }
    }
}

/// Whether a task can be sent a segmentation fault: it has a handler for it
/// and a way back from that, and handles no signal now.
pub open spec fn takes_sigsegv(t: Task) -> bool {
    let (handler, flags, restorer) = t.sig_handlers@[SIGSEGV as int];
    t.sig_delivering is None && handler > 1 && flags & SA_RESTORER != 0 && restorer != 0
}

/// Where the handler's stack starts: below the red zone and room to spare,
/// aligned as after a call.
pub open spec fn handler_stack(rsp: u64) -> u64 {
    let below = rsp.wrapping_sub(512);
    ((below - below % 16) as u64).wrapping_sub(8)
}

/// Sends the running task a segmentation fault, if it takes it: changes the
/// registers so that its handler runs next, and returns the word to write,
/// with its address, for the handler to return to.
fn try_deliver_sigsegv(tasks: &mut TaskTable, f: &mut PfFrame) -> (r: Option<(u64, u64)>)
    requires
        old(tasks).wf(),
        old(tasks)@.running() is Some,
    ensures
        final(tasks).wf(),
        ({
            let t = old(tasks)@.running()->0;
            let (handler, _, restorer) = t.sig_handlers@[SIGSEGV as int];
            let rsp = handler_stack(old(f).rsp);
            if takes_sigsegv(t) {
                &&& r == Some((rsp, restorer))
                &&& *final(f) == (PfFrame { rsp, rip: handler, rdi: SIGSEGV as u64, ..*old(f) })
                &&& final(tasks)@ == old(tasks)@.with(
                    Task { sig_delivering: Some(SIGSEGV), sig_saved_ctx: Some(old(f).context()), ..t },
                )
            } else {
                r is None && *final(f) == *old(f) && final(tasks)@ == old(tasks)@
            }
        }),
{
    if is_delivering_signal(tasks, SIGSEGV) {
        return None;
    }
    let (handler, flags, restorer) = sigaction(tasks, SIGSEGV as u64);
    if handler <= 1 || flags & SA_RESTORER == 0 || restorer == 0 {
        return None;
    }
    let ctx = f.saved();
    if !begin_signal_delivery(tasks, SIGSEGV, ctx) {
        return None;
    }
    let below: u64 = f.rsp.wrapping_sub(512);
    let rsp: u64 = (below - below % 16).wrapping_sub(8);
    f.rsp = rsp;
    f.rip = handler;
    f.rdi = SIGSEGV as u64;
    Some((rsp, restorer))
}

/// What is to be done after a page fault.
#[derive(Clone, Copy, PartialEq, Eq, Structural, Debug)]
pub enum FaultAction {
    /// Go on; the page is there now.
    Retry,
    /// Write the word at the address, then go on with the changed registers.
    Signal(u64, u64),
    /// Nobody takes the fault.
    Unhandled,
}

/// What handling a page fault does: a page that is not there is brought in if
/// something is mapped there that admits the access; else a program that
/// takes the signal gets it.
pub open spec fn page_fault_done(
    before: Kernel,
    after: Kernel,
    frame: PfFrame,
    after_frame: PfFrame,
    fault_addr: u64,
    r: FaultAction,
) -> bool {
    let (t, m, paged) = faulted(
        before.regions@,
        before.mem@,
        before.fs.disk@,
        before.fs.layout,
        before.space(),
        before.mem.nx,
        fault_addr,
        frame.error_code,
    );
    let absent = frame.error_code & 1 == 0;
    let task = before.task();
    let (handler, _, restorer) = task.sig_handlers@[SIGSEGV as int];
    let rsp = handler_stack(frame.rsp);
    &&& absent ==> after.regions@ == t && after.mem@ == m
    &&& !absent ==> after.regions@ == before.regions@ && after.mem@ == before.mem@
    &&& if absent && paged {
        r == FaultAction::Retry && after_frame == frame && after.tasks@ == before.tasks@
    } else if frame.cs & 3 == 3 && takes_sigsegv(task) {
        &&& r == FaultAction::Signal(rsp, restorer)
        &&& after_frame == (PfFrame { rsp, rip: handler, rdi: SIGSEGV as u64, ..frame })
        &&& after.tasks@ == before.tasks@.with(
            Task { sig_delivering: Some(SIGSEGV), sig_saved_ctx: Some(frame.context()), ..task },
        )
    } else {
        r == FaultAction::Unhandled && after_frame == frame && after.tasks@ == before.tasks@
    }
}

/// Handles a page fault at `fault_addr`: brings in the page if something is
/// mapped there, else sends a program that caused it a signal.
#[verifier::spinoff_prover]
#[verifier::rlimit(40)]
pub fn handle_page_fault(k: &mut Kernel, f: &mut PfFrame, fault_addr: u64) -> (r: FaultAction)
    requires
        old(k).wf(),
    ensures
        final(k).wf(),
        final(k).same_machine(*old(k)),
        final(k).fs.only_read(old(k).fs),
        page_fault_done(*old(k), *final(k), *old(f), *final(f), fault_addr, r),
{
    if f.error_code & 1 == 0 {
        proof {
            lemma_pages_known(k.mem@, k.space());
            law_fault(
                k.regions@,
                k.mem@,
                k.fs.disk@,
                k.fs.layout,
                k.space(),
                k.mem.nx,
                fault_addr,
                f.error_code,
            );
        }
        if fault(&mut k.regions, &mut k.mem, &mut k.fs, fault_addr, f.error_code) {
            return FaultAction::Retry;
        }
    }
    if f.cs & 3 == 3 {
        if let Some((at, word)) = try_deliver_sigsegv(&mut k.tasks, f) {
            return FaultAction::Signal(at, word);
        }
    }
    FaultAction::Unhandled
}

// ---- The heap ----

pub const NO_HEAP: &'static str = "out of memory";

pub const LAST_PAGE: u64 = 0xFFFF_FFFF_FFFF_F000;

pub open spec fn zero_page() -> Seq<u8> {
    Seq::new(4096, |i: int| 0u8)
}

/// Memory after a heap has been grown page by page from `at` up to `goal`, or
/// as far as memory goes, and where it ends.
pub open spec fn grown(s: Mem, space: u64, at: int, goal: int) -> (Mem, int)
    decreases
        (if goal > at {
            goal - at
        } else {
            0
        }),
{
    if at >= goal {
        (s, at)
    } else {
        match placed(s, space, at as u64, PAGE_WRITABLE | PAGE_USER, zero_page(), NO_HEAP) {
            (s1, Err(_)) => (s1, at),
            (s1, Ok(_)) => grown(s1, space, at + 4096, goal),
        }
    }
}

/// The end of the heap that a request asks for, in whole pages. A request
/// beyond the last page asks for nothing.
pub open spec fn heap_goal(requested: u64) -> int {
    if requested > LAST_PAGE {
        0
    } else {
        (requested + 4095) / 4096 * 4096
    }
}

/// What a request to move the end of the heap does: it only ever grows.
pub open spec fn heap_moved(k: Kernel, requested: u64) -> (Mem, u64) {
    let current = k.task().heap_end;
    if requested <= current {
        (k.mem@, current)
    } else {
        let (m, end) = grown(k.mem@, k.space(), current as int, heap_goal(requested));
        (m, end as u64)
    }
}

/// Moves the end of the running task's heap to `requested`, or as far as
/// memory goes, and returns where it is now. It does not move down.
pub fn grow_heap(k: &mut Kernel, requested: u64) -> (r: u64)
    requires
        old(k).wf(),
    ensures
        final(k).wf(),
        final(k).same_machine(*old(k)),
        final(k).regions == old(k).regions,
        final(k).fs == old(k).fs,
        (final(k).mem@, r) == heap_moved(*old(k), requested),
        final(k).tasks@ == old(k).tasks@.with(Task { heap_end: r, ..old(k).task() }),
{
    let current: u64 = heap_end(&k.tasks);
    if requested <= current {
        assert(old(k).tasks@.with(Task { heap_end: current, ..old(k).task() }).slots =~= old(k).tasks@.slots);
        return current;
    }
    let goal: u64 = if requested > LAST_PAGE {
        0
    } else {
        (requested + 4095) / 4096 * 4096
    };
    let mut at: u64 = current;
    let ghost s = k.mem@;
    let space: u64 = current_cr3(&k.mem);
    let zeros = zeros_page();
    proof {
        assert((2u64 | 4u64) & 0x000F_FFFF_FFFF_F000u64 == 0) by (bit_vector);
    }
    while at < goal
        invariant_except_break
            grown(s, space, current as int, goal as int) == grown(k.mem@, space, at as int, goal as int),
        invariant
            zeros@ == zero_page(),
            (PAGE_WRITABLE | PAGE_USER) & ADDR_MASK == 0,
            goal == heap_goal(requested),
            goal <= LAST_PAGE,
            k.mem.wf(),
            space_ok(k.mem@, space),
            space == k.space(),
            space == old(k).space(),
            k.same_machine(*old(k)),
            k.regions == old(k).regions,
            k.fs == old(k).fs,
            k.tasks == old(k).tasks,
        ensures
            k.mem.wf(),
            space_ok(k.mem@, space),
            space == k.space(),
            k.same_machine(*old(k)),
            k.regions == old(k).regions,
            k.fs == old(k).fs,
            k.tasks == old(k).tasks,
            grown(s, space, current as int, goal as int) == (k.mem@, at as int),
        decreases
            (if goal > at {
                goal - at
            } else {
                0
            }),
    {
        match place_page(&mut k.mem, space, at, PAGE_WRITABLE | PAGE_USER, zeros.as_slice(), NO_HEAP) {
            Ok(_) => {},
            Err(_) => {
                break;
            },
        }
        at += 4096;
    }
    set_heap_end(&mut k.tasks, at);
    at
}

fn zeros_page() -> (r: Vec<u8>)
    ensures
        r@ == zero_page(),
{
    let mut page: Vec<u8> = Vec::new();
    for i in 0..4096usize
        invariant
            page@ == Seq::new(i as nat, |k: int| 0u8),
    {
        page.push(0);
        assert(page@ =~= Seq::new((i + 1) as nat, |k: int| 0u8));
    }
    page
}


/// Growing one program's heap changes nothing that programs in another
/// address space see.
pub proof fn law_growing_is_private(s: Mem, a: u64, at: int, goal: int, b: u64)
    requires
        s.wf(),
        space_ok(s, a),
        space_ok(s, b),
        separate(s.ram, a, b),
        0 <= at,
        goal <= USER_END,
    ensures
        ({
            let s1 = grown(s, a, at, goal).0;
            space_ok(s1, a) && space_ok(s1, b) && separate(s1.ram, a, b) && same_view(s.ram, s1.ram, b)
        }),
    decreases
        (if goal > at {
            goal - at
        } else {
            0
        }),
{
    if at < goal {
        let flags = PAGE_WRITABLE | PAGE_USER;
        assert((2u64 | 4u64) & 0x000F_FFFF_FFFF_F000u64 == 0) by (bit_vector);
        lemma_lower(at as u64);
        law_placing_is_private(s, a, at as u64, flags, zero_page(), NO_HEAP, b);
        let (s1, r) = placed(s, a, at as u64, flags, zero_page(), NO_HEAP);
        if r is Ok {
            law_growing_is_private(s1, a, at + 4096, goal, b);
            let s2 = grown(s, a, at, goal).0;
            assert forall|w: u64| #[trigger] leaf_of(s2.ram, b, w) == leaf_of(s.ram, b, w) by {
                assert(leaf_of(s1.ram, b, w) == leaf_of(s.ram, b, w));
            }
            assert forall|x: u64| lower(x) implies #[trigger] vbyte(s2.ram, b, x) == vbyte(s.ram, b, x) by {
                assert(vbyte(s1.ram, b, x) == vbyte(s.ram, b, x));
            }
        }
    }
}
} // verus!
