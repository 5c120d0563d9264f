//! Interrupt descriptors, and what happens on a processor exception: a report,
//! and the end of the program that caused it.
use crate::gdt::{DOUBLE_FAULT_IST_INDEX, KERNEL_CODE_SELECTOR};
use crate::kernel::Kernel;
use crate::le::{get64, le64};
use crate::paging::{current_cr3, leaf_of, path_ok, target, translate, Memory};
use crate::ram::load_byte;
use crate::space::{data_apart, data_frame, lemma_lower, space_ok, vbyte};
use crate::task::{current_id, ended, group_ended, kill_group, task_exit, woken, Task, Tasks, MAX_TASKS};
use crate::text::{decimal, hex, hex_digit, push_decimal, push_hex, push_str};
use crate::vm::USER_END;
use vstd::prelude::*;
use vstd::string::*;

verus! {

pub const IDT_ENTRIES: usize = 256;

pub const NUM_EXCEPTION_VECTORS: usize = 32;

/// The descriptor of an interrupt's handler.
#[derive(Clone, Copy, PartialEq, Eq, Structural, Debug)]
pub struct IdtEntry {
    pub offset_low: u16,
    pub selector: u16,
    pub ist: u8,
    pub type_attr: u8,
    pub offset_mid: u16,
    pub offset_high: u32,
    pub reserved: u32,
}

impl IdtEntry {
    /// The descriptor for a handler at an address: a present interrupt gate.
    pub open spec fn of(handler: u64, ist: u8, dpl: u8) -> IdtEntry {
        IdtEntry {
            offset_low: (handler % 0x1_0000) as u16,
            selector: KERNEL_CODE_SELECTOR,
            ist,
            type_attr: (0x8E + 32 * dpl) as u8,
            offset_mid: (handler / 0x1_0000 % 0x1_0000) as u16,
            offset_high: (handler / 0x1_0000_0000) as u32,
            reserved: 0,
        }
    }

    pub open spec fn none() -> IdtEntry {
        IdtEntry {
            offset_low: 0,
            selector: 0,
            ist: 0,
            type_attr: 0,
            offset_mid: 0,
            offset_high: 0,
            reserved: 0,
        }
    }

    /// The address that a descriptor leads to.
    pub open spec fn handler(self) -> int {
        self.offset_low + self.offset_mid * 0x1_0000 + self.offset_high * 0x1_0000_0000
    }

    fn missing() -> (r: IdtEntry)
        ensures
            r == IdtEntry::none(),
    {
        IdtEntry {
            offset_low: 0,
            selector: 0,
            ist: 0,
            type_attr: 0,
            offset_mid: 0,
            offset_high: 0,
            reserved: 0,
        }
    }

    fn new(handler: u64, ist: u8, dpl: u8) -> (r: IdtEntry)
        requires
            dpl <= 3,
        ensures
            r == IdtEntry::of(handler, ist, dpl),
    {
        IdtEntry {
            offset_low: (handler % 0x1_0000) as u16,
            selector: KERNEL_CODE_SELECTOR,
            ist,
            type_attr: 0x8E + 32 * dpl,
            offset_mid: (handler / 0x1_0000 % 0x1_0000) as u16,
            offset_high: (handler / 0x1_0000_0000) as u32,
            reserved: 0,
        }
    }
}

/// A descriptor leads to the address that it was made for.
pub proof fn law_descriptor_leads_back(handler: u64, ist: u8, dpl: u8)
    ensures
        IdtEntry::of(handler, ist, dpl).handler() == handler,
{
}

/// The table of descriptors.
pub struct Idt {
    pub entries: Vec<IdtEntry>,
}

impl Idt {
    pub open spec fn wf(self) -> bool {
        self.entries@.len() == IDT_ENTRIES
    }

    /// A table with handlers for the exceptions only. A double fault is
    /// handled on a stack of its own.
    pub fn new(stubs: &[u64; 32]) -> (r: Idt)
        ensures
            r.wf(),
            forall|v: int|
                0 <= v < IDT_ENTRIES ==> #[trigger] r.entries@[v] == if v < NUM_EXCEPTION_VECTORS {
                    IdtEntry::of(
                        stubs@[v],
                        if v == 8 {
                            DOUBLE_FAULT_IST_INDEX as u8
                        } else {
                            0
                        },
                        0,
                    )
                } else {
                    IdtEntry::none()
                },
    {
        let mut entries: Vec<IdtEntry> = Vec::new();
        for v in 0..IDT_ENTRIES
            invariant
                entries@.len() == v,
                forall|w: int|
                    0 <= w < v ==> #[trigger] entries@[w] == if w < NUM_EXCEPTION_VECTORS {
                        IdtEntry::of(
                            stubs@[w],
                            if w == 8 {
                                DOUBLE_FAULT_IST_INDEX as u8
                            } else {
                                0
                            },
                            0,
                        )
                    } else {
                        IdtEntry::none()
                    },
        {
            if v < NUM_EXCEPTION_VECTORS {
                let ist: u8 = if v == 8 {
                    DOUBLE_FAULT_IST_INDEX as u8
                } else {
                    0
                };
                entries.push(IdtEntry::new(stubs[v], ist, 0));
            } else {
                entries.push(IdtEntry::missing());
            }
        }
        Idt { entries }
    }

    /// Sets the handler of an interrupt that is no exception.
    pub fn set_handler(&mut self, vector: usize, handler: u64)
        requires
            old(self).wf(),
            NUM_EXCEPTION_VECTORS <= vector < IDT_ENTRIES,
        ensures
            final(self).wf(),
            final(self).entries@ == old(self).entries@.update(vector as int, IdtEntry::of(handler, 0, 0)),
    {
        self.entries[vector] = IdtEntry::new(handler, 0, 0);
    }

    /// Sets the handler of an interrupt that programs may cause.
    pub fn set_user_handler(&mut self, vector: usize, handler: u64)
        requires
            old(self).wf(),
            NUM_EXCEPTION_VECTORS <= vector < IDT_ENTRIES,
        ensures
            final(self).wf(),
            final(self).entries@ == old(self).entries@.update(vector as int, IdtEntry::of(handler, 0, 3)),
    {
        self.entries[vector] = IdtEntry::new(handler, 0, 3);
    }
}

// ---- Exceptions ----

pub open spec fn name_of(vector: u64) -> &'static str {
    if vector == 0 {
        "Divide Error"
    } else if vector == 1 {
        "Debug"
    } else if vector == 2 {
        "Non-Maskable Interrupt"
    } else if vector == 3 {
        "Breakpoint"
    } else if vector == 4 {
        "Overflow"
    } else if vector == 5 {
        "BOUND Range Exceeded"
    } else if vector == 6 {
        "Invalid Opcode"
    } else if vector == 7 {
        "Device Not Available"
    } else if vector == 8 {
        "Double Fault"
    } else if vector == 9 {
        "Coprocessor Segment Overrun"
    } else if vector == 10 {
        "Invalid TSS"
    } else if vector == 11 {
        "Segment Not Present"
    } else if vector == 12 {
        "Stack-Segment Fault"
    } else if vector == 13 {
        "General Protection Fault"
    } else if vector == 14 {
        "Page Fault"
    } else if vector == 16 {
        "x87 Floating-Point Exception"
    } else if vector == 17 {
        "Alignment Check"
    } else if vector == 18 {
        "Machine Check"
    } else if vector == 19 {
        "SIMD Floating-Point Exception"
    } else if vector == 20 {
        "Virtualization Exception"
    } else if vector == 21 {
        "Control Protection Exception"
    } else {
        "Reserved/Unknown Exception"
    }
}

pub fn exception_name(vector: u64) -> (r: &'static str)
    ensures
        r == name_of(vector),
{
    match vector {
        0 => "Divide Error",
        1 => "Debug",
        2 => "Non-Maskable Interrupt",
        3 => "Breakpoint",
        4 => "Overflow",
        5 => "BOUND Range Exceeded",
        6 => "Invalid Opcode",
        7 => "Device Not Available",
        8 => "Double Fault",
        9 => "Coprocessor Segment Overrun",
        10 => "Invalid TSS",
        11 => "Segment Not Present",
        12 => "Stack-Segment Fault",
        13 => "General Protection Fault",
        14 => "Page Fault",
        16 => "x87 Floating-Point Exception",
        17 => "Alignment Check",
        18 => "Machine Check",
        19 => "SIMD Floating-Point Exception",
        20 => "Virtualization Exception",
        21 => "Control Protection Exception",
        _ => "Reserved/Unknown Exception",
    }
}

/// The first `n` bytes from `addr` on that a program has there, if it has all
/// of them.
pub open spec fn seen(ram: Seq<u64>, space: u64, addr: int, n: int) -> Option<Seq<u8>>
    decreases n,
{
    if n <= 0 {
        Some(Seq::empty())
    } else {
        match (seen(ram, space, addr, n - 1), vbyte(ram, space, (addr + n - 1) as u64)) {
            (Some(before), Some(b)) => Some(before.push(b)),
            _ => None,
        }
    }
}

/// A look at `n` bytes of a program's memory that never faults: nothing
/// outside the user half is looked at.
pub open spec fn diagnostic(ram: Seq<u64>, space: u64, addr: int, n: int) -> Option<Seq<u8>> {
    if addr + n > USER_END {
        None
    } else {
        seen(ram, space, addr, n)
    }
}

proof fn lemma_unseen(ram: Seq<u64>, space: u64, addr: int, n: int, m: int)
    requires
        n <= m,
        seen(ram, space, addr, n) is None,
    ensures
        seen(ram, space, addr, m) is None,
    decreases m - n,
{
    if n < m && m > 0 {
        lemma_unseen(ram, space, addr, n, m - 1);
    }
}

fn diagnostic_bytes(mem: &Memory, addr: u64, n: u64) -> (r: Option<Vec<u8>>)
    requires
        mem.wf(),
        space_ok(mem@, target(mem.cr3)),
        n <= 16,
    ensures
        match diagnostic(mem.ram@, target(mem.cr3), addr as int, n as int) {
            Some(b) => r matches Some(v) && v@ == b && b.len() == n,
            None => r is None,
        },
{
    if addr > USER_END || addr + n > USER_END {
        return None;
    }
    let space: u64 = current_cr3(mem);
    let mut out: Vec<u8> = Vec::new();
    assert(out@ =~= Seq::empty());
    for i in 0..n
        invariant
            mem.wf(),
            space_ok(mem@, space),
            space == target(mem.cr3),
            addr + n <= USER_END,
            out@.len() == i,
            seen(mem.ram@, space, addr as int, i as int) == Some(out@),
    {
        let at: u64 = addr + i;
        proof {
            if seen(mem.ram@, space, addr as int, i + 1) is None {
                lemma_unseen(mem.ram@, space, addr as int, i + 1, n as int);
            }
            reveal(space_ok);
            assert(path_ok(mem.ram@, space, at));
        }
        match translate(mem, space, at) {
            None => {
                return None;
            },
            Some(p) => {
                proof {
                    lemma_lower(at);
                    reveal(data_apart);
                    assert(leaf_of(mem.ram@, space, at) is Some);
                    assert(data_frame(mem@, space, p));
                }
                out.push(load_byte(&mem.ram, p + at % 4096));
            },
        }
    }
    Some(out)
}

/// The last `n` hexadecimal digits of a number.
pub open spec fn hex_digits(v: nat, n: nat) -> Seq<u8>
    decreases n,
{
    if n == 0 {
        Seq::empty()
    } else {
        hex_digits(v / 16, (n - 1) as nat).push(hex_digit(v % 16))
    }
}

fn push_digits(out: &mut Vec<u8>, v: u64, n: u64)
    requires
        n <= 16,
    ensures
        final(out)@ == old(out)@ + hex_digits(v as nat, n as nat),
    decreases n,
{
    let ghost before = out@;
    if n > 0 {
        push_digits(out, v / 16, n - 1);
        let d: u64 = v % 16;
        if d < 10 {
            out.push((0x30 + d) as u8);
        } else {
            out.push((0x57 + d) as u8);
        }
    }
    assert(out@ =~= before + hex_digits(v as nat, n as nat));
}

/// The registers at an exception, in the order in which they lie on the
/// stack, from `r15` to `rax`, and the rest of what is known.
pub struct Exception {
    pub vector: u64,
    pub error_code: u64,
    pub rip: u64,
    pub cs: u64,
    pub regs: [u64; 15],
    pub user_rsp: u64,
    pub cr2: u64,
}

/// A name with the value of a register behind it.
pub open spec fn register(name: &str, v: u64) -> Seq<u8> {
    name.spec_bytes() + "=0x".spec_bytes() + hex_digits(v as nat, 16)
}

fn push_register(out: &mut Vec<u8>, name: &str, v: u64)
    ensures
        final(out)@ == old(out)@ + register(name, v),
{
    let ghost before = out@;
    push_str(out, name);
    push_str(out, "=0x");
    push_digits(out, v, 16);
    assert(out@ =~= before + register(name, v));
}

/// A line of the report that ends in a number.
pub open spec fn hex_line(what: &str, v: u64) -> Seq<u8> {
    what.spec_bytes() + hex(v as nat) + "\n".spec_bytes()
}

fn push_hex_line(out: &mut Vec<u8>, what: &str, v: u64)
    ensures
        final(out)@ == old(out)@ + hex_line(what, v),
{
    let ghost before = out@;
    push_str(out, what);
    push_hex(out, v);
    push_str(out, "\n");
    assert(out@ =~= before + hex_line(what, v));
}

pub open spec fn headline(e: Exception) -> Seq<u8> {
    "\n*** CPU EXCEPTION: #".spec_bytes() + decimal(e.vector as nat) + " ".spec_bytes() + name_of(
        e.vector,
    ).spec_bytes() + " ***\n".spec_bytes() + hex_line("  error code: 0x", e.error_code) + hex_line(
        "  faulting RIP: 0x",
        e.rip,
    ) + if e.vector == 14 {
        hex_line("  faulting address (CR2): 0x", e.cr2)
    } else {
        Seq::empty()
    }
}

fn push_headline(out: &mut Vec<u8>, e: &Exception)
    ensures
        final(out)@ == old(out)@ + headline(*e),
{
    let ghost before = out@;
    push_str(out, "\n*** CPU EXCEPTION: #");
    push_decimal(out, e.vector);
    push_str(out, " ");
    push_str(out, exception_name(e.vector));
    push_str(out, " ***\n");
    push_hex_line(out, "  error code: 0x", e.error_code);
    push_hex_line(out, "  faulting RIP: 0x", e.rip);
    if e.vector == 14 {
        push_hex_line(out, "  faulting address (CR2): 0x", e.cr2);
    }
    assert(out@ =~= before + headline(*e));
}

pub open spec fn registers(e: Exception) -> Seq<u8> {
    let r = e.regs@;
    register("  rax", r[14]) + register(" rbx", r[13]) + register(" rcx", r[12]) + register(" rdx", r[11])
        + register("\n  rsi", r[10]) + register(" rdi", r[9]) + register(" rbp", r[8]) + register("\n  r8 ", r[7])
        + register(" r9 ", r[6]) + register(" r10", r[5]) + register(" r11", r[4]) + register("\n  r12", r[3])
        + register(" r13", r[2]) + register(" r14", r[1]) + register(" r15", r[0]) + "\n".spec_bytes()
}

#[verifier::spinoff_prover]
fn push_registers(out: &mut Vec<u8>, e: &Exception)
    ensures
        final(out)@ == old(out)@ + registers(*e),
{
    let ghost before = out@;
    push_register(out, "  rax", e.regs[14]);
    push_register(out, " rbx", e.regs[13]);
    push_register(out, " rcx", e.regs[12]);
    push_register(out, " rdx", e.regs[11]);
    push_register(out, "\n  rsi", e.regs[10]);
    push_register(out, " rdi", e.regs[9]);
    push_register(out, " rbp", e.regs[8]);
    push_register(out, "\n  r8 ", e.regs[7]);
    push_register(out, " r9 ", e.regs[6]);
    push_register(out, " r10", e.regs[5]);
    push_register(out, " r11", e.regs[4]);
    push_register(out, "\n  r12", e.regs[3]);
    push_register(out, " r13", e.regs[2]);
    push_register(out, " r14", e.regs[1]);
    push_register(out, " r15", e.regs[0]);
    push_str(out, "\n");
    assert(out@ =~= before + registers(*e));
}

/// Bytes as a list of two-digit numbers.
pub open spec fn byte_list(b: Seq<u8>) -> Seq<u8>
    decreases b.len(),
{
    if b.len() == 0 {
        Seq::empty()
    } else {
        byte_list(b.drop_last()) + (if b.len() > 1 {
            ", ".spec_bytes()
        } else {
            Seq::empty()
        }) + hex_digits(b.last() as nat, 2)
    }
}

fn push_list(out: &mut Vec<u8>, b: &Vec<u8>)
    ensures
        final(out)@ == old(out)@ + byte_list(b@),
{
    let ghost before = out@;
    let n: usize = b.len();
    assert(b@.take(0) =~= Seq::empty());
    assert(before + byte_list(b@.take(0)) =~= before);
    for i in 0..n
        invariant
            n == b@.len(),
            out@ == before + byte_list(b@.take(i as int)),
    {
        assert(b@.take(i + 1).drop_last() =~= b@.take(i as int));
        if i > 0 {
            push_str(out, ", ");
        }
        push_digits(out, b[i] as u64, 2);
        assert(out@ =~= before + byte_list(b@.take(i + 1)));
    }
    assert(b@.take(n as int) =~= b@);
}

pub open spec fn code_line(ram: Seq<u64>, space: u64, rip: u64) -> Seq<u8> {
    match diagnostic(ram, space, rip as int, 16) {
        Some(b) => "  code at RIP: [".spec_bytes() + byte_list(b) + "]\n".spec_bytes(),
        None => "  code at RIP: unavailable\n".spec_bytes(),
    }
}

fn push_code(out: &mut Vec<u8>, mem: &Memory, rip: u64)
    requires
        mem.wf(),
        space_ok(mem@, target(mem.cr3)),
    ensures
        final(out)@ == old(out)@ + code_line(mem.ram@, target(mem.cr3), rip),
{
    let ghost before = out@;
    match diagnostic_bytes(mem, rip, 16) {
        Some(b) => {
            push_str(out, "  code at RIP: [");
            push_list(out, &b);
            push_str(out, "]\n");
        },
        None => {
            push_str(out, "  code at RIP: unavailable\n");
        },
    }
    assert(out@ =~= before + code_line(mem.ram@, target(mem.cr3), rip));
}

/// The first `n` words from the stack pointer on, one to a line.
pub open spec fn stack_lines(ram: Seq<u64>, space: u64, rsp: u64, n: int) -> Seq<u8>
    decreases n,
{
    if n <= 0 {
        Seq::empty()
    } else {
        let at = 8 * (n - 1);
        stack_lines(ram, space, rsp, n - 1) + "    [rsp+0x".spec_bytes() + hex_digits(at as nat, 2) + (match diagnostic(
            ram,
            space,
            rsp + at,
            8,
        ) {
            Some(b) => "] = 0x".spec_bytes() + hex_digits(le64(b, 0) as nat, 16) + "\n".spec_bytes(),
            None => "] = unavailable\n".spec_bytes(),
        })
    }
}

fn push_stack(out: &mut Vec<u8>, mem: &Memory, rsp: u64)
    requires
        mem.wf(),
        space_ok(mem@, target(mem.cr3)),
    ensures
        final(out)@ == old(out)@ + stack_lines(mem.ram@, target(mem.cr3), rsp, 6),
{
    let ghost before = out@;
    assert(before + stack_lines(mem.ram@, target(mem.cr3), rsp, 0) =~= before);
    for i in 0..6u64
        invariant
            mem.wf(),
            space_ok(mem@, target(mem.cr3)),
            out@ == before + stack_lines(mem.ram@, target(mem.cr3), rsp, i as int),
    {
        let at: u64 = 8 * i;
        push_str(out, "    [rsp+0x");
        push_digits(out, at, 2);
        let word: Option<Vec<u8>> = match rsp.checked_add(at) {
            Some(a) => diagnostic_bytes(mem, a, 8),
            None => None,
        };
        match word {
            Some(b) => {
                push_str(out, "] = 0x");
                push_digits(out, get64(b.as_slice(), 0), 16);
                push_str(out, "\n");
            },
            None => {
                push_str(out, "] = unavailable\n");
            },
        }
        assert(out@ =~= before + stack_lines(mem.ram@, target(mem.cr3), rsp, i + 1));
    }
}

/// What is reported of an exception, and what is done about it.
pub open spec fn report(k: Kernel, e: Exception) -> Seq<u8> {
    if e.cs & 3 == 3 {
        headline(e) + registers(e) + code_line(k.mem.ram@, k.space(), e.rip) + "  user RSP=0x".spec_bytes() + hex(
            e.user_rsp as nat,
        ) + ", top of stack:\n".spec_bytes() + stack_lines(k.mem.ram@, k.space(), e.user_rsp, 6)
            + "  ring 3 (CS=0x".spec_bytes() + hex(e.cs as nat) + ") -- killing task #".spec_bytes() + decimal(
            k.task().id as nat,
        ) + " and the rest of its thread group, system stays up.\n".spec_bytes()
    } else {
        headline(e) + "  ring 0 (CS=0x".spec_bytes() + hex(e.cs as nat)
            + ") -- a real kernel bug, not recoverable. halting.\n".spec_bytes()
    }
}

/// What is done about an exception.
#[derive(Clone, Copy, PartialEq, Eq, Structural, Debug)]
pub enum Outcome {
    /// The program is over; the word at the address, if there is one, is
    /// cleared, and another task runs.
    Killed(Option<u64>),
    /// The kernel stops.
    Halt,
}

/// The tasks after a program has been killed: all of them that live in its
/// address space.
pub open spec fn killed(before: Tasks) -> Tasks {
    let t = before.running()->0;
    let group = Tasks { slots: group_ended(before.slots, t.cr3, t.id), ..before };
    let left = group.with(Task { child_tidptr: None, ..ended(t) });
    match t.child_tidptr {
        None => left,
        Some(p) => Tasks { slots: woken(left.slots, p, u32::MAX as int, MAX_TASKS as int), ..left },
    }
}

/// Reports an exception. A program that caused it is killed; in the kernel it
/// is the end.
#[verifier::spinoff_prover]
#[verifier::rlimit(40)]
pub fn exception_handler(k: &mut Kernel, e: &Exception) -> (r: (Vec<u8>, Outcome))
    requires
        old(k).wf(),
    ensures
        final(k).wf(),
        final(k).only_tasks(*old(k)),
        r.0@ == report(*old(k), *e),
        if e.cs & 3 == 3 {
            r.1 == Outcome::Killed(old(k).task().child_tidptr) && final(k).tasks@ == killed(old(k).tasks@)
        } else {
            r.1 == Outcome::Halt && final(k).tasks@ == old(k).tasks@
        },
{
    let mut out: Vec<u8> = Vec::new();
    push_headline(&mut out, e);
    if e.cs & 3 == 3 {
        push_registers(&mut out, e);
        push_code(&mut out, &k.mem, e.rip);
        push_str(&mut out, "  user RSP=0x");
        push_hex(&mut out, e.user_rsp);
        push_str(&mut out, ", top of stack:\n");
        push_stack(&mut out, &k.mem, e.user_rsp);
        let cr3: u64 = crate::task::current_cr3(&k.tasks);
        let id: u64 = current_id(&k.tasks);
        kill_group(&mut k.tasks, cr3, id);
        push_str(&mut out, "  ring 3 (CS=0x");
        push_hex(&mut out, e.cs);
        push_str(&mut out, ") -- killing task #");
        push_decimal(&mut out, id);
        push_str(&mut out, " and the rest of its thread group, system stays up.\n");
        assert(out@ =~= report(*old(k), *e));
        let ptr: Option<u64> = task_exit(&mut k.tasks);
        return (out, Outcome::Killed(ptr));
    }
    push_str(&mut out, "  ring 0 (CS=0x");
    push_hex(&mut out, e.cs);
    push_str(&mut out, ") -- a real kernel bug, not recoverable. halting.\n");
    assert(out@ =~= report(*old(k), *e));
    (out, Outcome::Halt)
}

} // verus!
