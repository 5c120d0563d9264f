//! What holds of the Linux system calls that tell programs about the system,
//! by their numbers, and of those that write several pieces or change the
//! directory.
use crate::elf_format::{law_numbers, quad, word};
use crate::kernel::Kernel;
use crate::le::{bytes32, bytes64, le64, lemma_le32_of_bytes32};
use crate::linux_abi::{limits, name_field, system_info, system_name, total_len, zeros, NextV, ReplyV};
use crate::linux_laws::{answers, delivers, file_at, lemma_le64_of_bytes64, refused};
use crate::linux_syscall::{call_done, piece, Args};
use crate::linux_tasks::Machine;
use crate::task::ExtraV;
use vstd::prelude::*;
use vstd::string::*;
use vstd::utf8::valid_utf8;

verus! {

/// Whether a text stands in field `k` of fields of 65 bytes, with zeros
/// behind it.
pub open spec fn in_field(b: Seq<u8>, k: int, text: Seq<u8>) -> bool {
    &&& text.len() < 65
    &&& forall|i: int| 0 <= i < text.len() ==> #[trigger] text[i] == b[65 * k + i]
    &&& forall|i: int| 65 * k + text.len() <= i < 65 * k + 65 ==> #[trigger] b[i] == 0
}

proof fn lemma_field(s: &str)
    requires
        s.spec_bytes().len() < 65,
    ensures
        name_field(s).len() == 65,
        forall|i: int| 0 <= i < s.spec_bytes().len() ==> #[trigger] name_field(s)[i] == s.spec_bytes()[i],
        forall|i: int| s.spec_bytes().len() <= i < 65 ==> #[trigger] name_field(s)[i] == 0,
{
}

/// Asking what the system is (63) tells six texts: the system's name, the
/// machine's, the release, the version, the hardware's and the domain's.
#[verifier::spinoff_prover]
#[verifier::rlimit(40)]
pub proof fn law_uname(before: Kernel, after: Kernel, a: Args, m: Machine, p: Seq<Seq<u8>>, r: ReplyV)
    requires
        call_done(before, after, 63, a, m, p, r),
    ensures
        after == before,
        delivers(r, 0, a.a0, r.writes[0].1),
        r.writes[0].1.len() == 390,
        in_field(r.writes[0].1, 0, "Linux".spec_bytes()),
        in_field(r.writes[0].1, 1, "konjacos".spec_bytes()),
        in_field(r.writes[0].1, 2, "6.1.0".spec_bytes()),
        in_field(r.writes[0].1, 3, "#1 KonjacOS".spec_bytes()),
        in_field(r.writes[0].1, 4, "x86_64".spec_bytes()),
        in_field(r.writes[0].1, 5, "(none)".spec_bytes()),
{
    lemma_name();
    assert(r.writes[0].1 == system_name());
}

#[verifier::spinoff_prover]
#[verifier::rlimit(40)]
proof fn lemma_name()
    ensures
        system_name().len() == 390,
        in_field(system_name(), 0, "Linux".spec_bytes()),
        in_field(system_name(), 1, "konjacos".spec_bytes()),
        in_field(system_name(), 2, "6.1.0".spec_bytes()),
        in_field(system_name(), 3, "#1 KonjacOS".spec_bytes()),
        in_field(system_name(), 4, "x86_64".spec_bytes()),
        in_field(system_name(), 5, "(none)".spec_bytes()),
{
    reveal_strlit("Linux");
    is_ascii_spec_bytes("Linux");
    reveal_strlit("konjacos");
    is_ascii_spec_bytes("konjacos");
    reveal_strlit("6.1.0");
    is_ascii_spec_bytes("6.1.0");
    reveal_strlit("#1 KonjacOS");
    is_ascii_spec_bytes("#1 KonjacOS");
    reveal_strlit("x86_64");
    is_ascii_spec_bytes("x86_64");
    reveal_strlit("(none)");
    is_ascii_spec_bytes("(none)");
    lemma_field("Linux");
    lemma_field("konjacos");
    lemma_field("6.1.0");
    lemma_field("#1 KonjacOS");
    lemma_field("x86_64");
    lemma_field("(none)");
}

/// Asking how the system is (99) tells the seconds since its start in the
/// first word, how many bytes of memory it has in the fifth and how many of
/// them are free in the sixth; its unit of memory, from byte 104 on, is one.
#[verifier::spinoff_prover]
#[verifier::rlimit(40)]
pub proof fn law_sysinfo(before: Kernel, after: Kernel, a: Args, m: Machine, p: Seq<Seq<u8>>, r: ReplyV)
    requires
        call_done(before, after, 99, a, m, p, r),
        4096 * before.mem@.frames.used.len() <= u64::MAX,
        before.mem@.frames.free() <= before.mem@.frames.used.len(),
    ensures
        after == before,
        delivers(r, 0, a.a0, r.writes[0].1),
        r.writes[0].1.len() == 112,
        quad(r.writes[0].1, 0) == m.now / 100,
        quad(r.writes[0].1, 32) == 4096 * before.mem@.frames.used.len(),
        quad(r.writes[0].1, 40) == 4096 * before.mem@.frames.free(),
        word(r.writes[0].1, 104) == 1,
{
    let total = before.mem@.frames.used.len() as u64;
    let free = before.mem@.frames.free() as u64;
    let up = (m.now / 100) as u64;
    lemma_sysinfo_reply(before, after, a, m, p, r);
    lemma_info(up, total, free);
    assert(total.wrapping_mul(4096) == 4096 * total);
    assert(free.wrapping_mul(4096) == 4096 * free);
}

proof fn lemma_sysinfo_reply(before: Kernel, after: Kernel, a: Args, m: Machine, p: Seq<Seq<u8>>, r: ReplyV)
    requires
        call_done(before, after, 99, a, m, p, r),
    ensures
        after == before,
        delivers(
            r,
            0,
            a.a0,
            system_info(
                (m.now / 100) as u64,
                before.mem@.frames.used.len() as u64,
                before.mem@.frames.free() as u64,
            ),
        ),
{
}

proof fn lemma_info(uptime: u64, total: u64, free: u64)
    ensures
        ({
            let b = system_info(uptime, total, free);
            &&& b.len() == 112
            &&& quad(b, 0) == uptime
            &&& quad(b, 32) == total.wrapping_mul(4096)
            &&& quad(b, 40) == free.wrapping_mul(4096)
            &&& word(b, 104) == 1
        }),
{
    let b = system_info(uptime, total, free);
    let x = total.wrapping_mul(4096);
    let y = free.wrapping_mul(4096);
    lemma_info_parts(uptime, x, y);
    lemma_le64_of_bytes64(b, 0, uptime);
    lemma_le64_of_bytes64(b, 32, x);
    lemma_le64_of_bytes64(b, 40, y);
    lemma_le32_of_bytes32(b, 104, 1);
    law_numbers(b, 0);
    law_numbers(b, 32);
    law_numbers(b, 40);
    law_numbers(b, 104);
}

#[verifier::spinoff_prover]
proof fn lemma_info_parts(uptime: u64, x: u64, y: u64)
    ensures
        ({
            let b = bytes64(uptime) + zeros(24) + bytes64(x) + bytes64(y) + zeros(56) + bytes32(1) + zeros(4);
            &&& b.len() == 112
            &&& b.subrange(0, 8) == bytes64(uptime)
            &&& b.subrange(32, 40) == bytes64(x)
            &&& b.subrange(40, 48) == bytes64(y)
            &&& b.subrange(104, 108) == bytes32(1)
        }),
{
    let (p, q, r, s) = (bytes64(uptime), bytes64(x), bytes64(y), bytes32(1));
    lemma_joined(p, q, r, s);
}

proof fn lemma_joined(p: Seq<u8>, q: Seq<u8>, r: Seq<u8>, s: Seq<u8>)
    requires
        p.len() == 8,
        q.len() == 8,
        r.len() == 8,
        s.len() == 4,
    ensures
        ({
            let b = p + zeros(24) + q + r + zeros(56) + s + zeros(4);
            &&& b.len() == 112
            &&& b.subrange(0, 8) == p
            &&& b.subrange(32, 40) == q
            &&& b.subrange(40, 48) == r
            &&& b.subrange(104, 108) == s
        }),
{
    let b = p + zeros(24) + q + r + zeros(56) + s + zeros(4);
    assert(b.subrange(0, 8) =~= p);
    assert(b.subrange(32, 40) =~= q);
    assert(b.subrange(40, 48) =~= r);
    assert(b.subrange(104, 108) =~= s);
}

/// Asking for limits (302) tells the one in force and the highest: sixteen
/// open files (7), eight mebibytes of stack (3), and else none. They cannot
/// be changed.
#[verifier::spinoff_prover]
pub proof fn law_limits(before: Kernel, after: Kernel, a: Args, m: Machine, p: Seq<Seq<u8>>, r: ReplyV)
    requires
        call_done(before, after, 302, a, m, p, r),
    ensures
        after == before,
        a.a2 != 0 ==> refused(r, 38),
        a.a2 == 0 && a.a3 == 0 ==> answers(r, 0),
        a.a2 == 0 && a.a3 != 0 ==> {
            let b = r.writes[0].1;
            &&& delivers(r, 0, a.a3, b)
            &&& b.len() == 16
            &&& le64(b, 0) == if a.a1 == 7 {
                16u64
            } else if a.a1 == 3 {
                0x80_0000
            } else {
                u64::MAX
            }
            &&& le64(b, 8) == if a.a1 == 7 {
                16u64
            } else {
                u64::MAX
            }
        },
{
    if a.a2 == 0 && a.a3 != 0 {
        let (x, y) = limits(a.a1);
        let b = bytes64(x) + bytes64(y);
        assert(b.subrange(0, 8) =~= bytes64(x));
        assert(b.subrange(8, 16) =~= bytes64(y));
        lemma_le64_of_bytes64(b, 0, x);
        lemma_le64_of_bytes64(b, 8, y);
    }
}

/// How fine the clocks 0, 1 and 7 are (229): a hundredth of a second.
#[verifier::spinoff_prover]
pub proof fn law_clock_resolution(before: Kernel, after: Kernel, a: Args, m: Machine, p: Seq<Seq<u8>>, r: ReplyV)
    requires
        call_done(before, after, 229, a, m, p, r),
    ensures
        after == before,
        a.a0 != 0 && a.a0 != 1 && a.a0 != 7 ==> refused(r, 22),
        (a.a0 == 0 || a.a0 == 1 || a.a0 == 7) && a.a1 == 0 ==> answers(r, 0),
        (a.a0 == 0 || a.a0 == 1 || a.a0 == 7) && a.a1 != 0 ==> {
            let b = r.writes[0].1;
            &&& delivers(r, 0, a.a1, b)
            &&& b.len() == 16
            &&& le64(b, 0) == 0
            &&& le64(b, 8) == 10_000_000
        },
{
    let b = bytes64(0) + bytes64(10_000_000);
    assert(b.subrange(0, 8) =~= bytes64(0));
    assert(b.subrange(8, 16) =~= bytes64(10_000_000));
    lemma_le64_of_bytes64(b, 0, 0);
    lemma_le64_of_bytes64(b, 8, 10_000_000);
}

/// Random bytes (318) are delivered as they came, no more than were asked for
/// and at most 4096. Without a source of them the call is not there, and with
/// none to be had it asks to try again.
pub proof fn law_random(before: Kernel, after: Kernel, a: Args, m: Machine, p: Seq<Seq<u8>>, r: ReplyV)
    requires
        call_done(before, after, 318, a, m, p, r),
    ensures
        after == before,
        !m.random ==> refused(r, 38),
        m.random && (a.a1 == 0 || piece(p, 0).len() == 0) ==> refused(r, 11),
        m.random && a.a1 != 0 && piece(p, 0).len() != 0 ==> {
            let b = r.writes[0].1;
            &&& delivers(r, b.len() as int, a.a0, b)
            &&& 0 < b.len() <= 4096 && b.len() <= a.a1
            &&& b.len() == a.a1 || b.len() == 4096 || b.len() == piece(p, 0).len()
            &&& b == piece(p, 0).take(b.len() as int)
        },
{
}

/// There is one processor: the set of those that may be used (204) has bit 0
/// alone, and the one in use (309) is number zero.
pub proof fn law_processors(before: Kernel, after: Kernel, number: u64, a: Args, m: Machine, p: Seq<Seq<u8>>, r: ReplyV)
    requires
        call_done(before, after, number, a, m, p, r),
    ensures
        number == 204 ==> {
            let b = r.writes[0].1;
            &&& after == before
            &&& a.a1 == 0 ==> refused(r, 22)
            &&& a.a1 != 0 ==> {
                &&& delivers(r, b.len() as int, a.a2, b)
                &&& b.len() == if a.a1 <= 8 {
                    a.a1 as int
                } else {
                    8
                }
                &&& b[0] == 1
                &&& forall|i: int| 0 < i < b.len() ==> #[trigger] b[i] == 0
            }
        },
        number == 309 ==> {
            &&& after == before
            &&& r.value == 0
            &&& a.a0 != 0 ==> r.writes.len() > 0 && r.writes[0] == (a.a0, zeros(4))
            &&& a.a1 != 0 ==> r.writes.len() > 0 && r.writes.last() == (a.a1, zeros(4))
            &&& a.a0 == 0 && a.a1 == 0 ==> r.writes.len() == 0
            &&& (a.a0 == 0) != (a.a1 == 0) ==> r.writes.len() == 1
            &&& a.a0 != 0 && a.a1 != 0 ==> r.writes.len() == 2
        },
{
}

/// What a program may ask for and is given without anything happening: 14,
/// 28, 72, 73, 157 and 273. A terminal's size (16 with 0x5413) is that of
/// none. Calls that are not there are refused as such.
pub proof fn law_other_calls(before: Kernel, after: Kernel, number: u64, a: Args, m: Machine, p: Seq<Seq<u8>>, r: ReplyV)
    requires
        call_done(before, after, number, a, m, p, r),
    ensures
        number == 14 || number == 28 || number == 72 || number == 73 || number == 157 || number == 273 ==> after
            == before && answers(r, 0),
        number == 16 ==> after == before && refused(
            r,
            if a.a1 == 0x5413 {
                25
            } else {
                38
            },
        ),
        number == 334 ==> after == before && refused(r, 38),
        number > 435 || 319 <= number < 334 || 335 <= number < 435 ==> after == before && r.writes.len() == 0 && r.next
            == NextV::Resume && r.value == 0x1_0000_0000_0000_0000 - 38,
{
}

/// Text in several pieces (20) is shown one piece after the other, and the
/// answer is how many bytes they have together.
pub proof fn law_write_pieces(before: Kernel, after: Kernel, a: Args, m: Machine, p: Seq<Seq<u8>>, r: ReplyV)
    requires
        call_done(before, after, 20, a, m, p, r),
        forall|i: int| 0 <= i < p.len() ==> valid_utf8(#[trigger] p[i]),
        p.flatten().len() <= u64::MAX,
    ensures
        after == before,
        r.output == p.flatten(),
        r.value == p.flatten().len(),
        r.writes.len() == 0,
        r.next == NextV::Resume,
{
    lemma_texts(p);
}

proof fn lemma_texts(p: Seq<Seq<u8>>)
    requires
        forall|i: int| 0 <= i < p.len() ==> valid_utf8(#[trigger] p[i]),
    ensures
        crate::linux_abi::console_texts(p) == p.flatten(),
        total_len(p) == p.flatten().len(),
    decreases p.len(),
{
    if p.len() > 0 {
        lemma_texts(p.drop_last());
        assert(valid_utf8(p[p.len() - 1]));
        p.lemma_flatten_and_flatten_alt_are_equivalent();
        p.drop_last().lemma_flatten_and_flatten_alt_are_equivalent();
    }
}

/// Going to a directory that is open (81) goes where its path leads from the
/// current one, and changes nothing else. A number that is no open
/// directory's is refused.
pub proof fn law_fchdir(before: Kernel, after: Kernel, a: Args, m: Machine, p: Seq<Seq<u8>>, r: ReplyV)
    requires
        before.wf(),
        call_done(before, after, 81, a, m, p, r),
    ensures
        after.tasks == before.tasks,
        after.mem == before.mem,
        after.regions == before.regions,
        after.fs.volume() == before.fs.volume(),
        match file_at(before, a.a0) {
            Some(f) => match f.extra {
                Some(ExtraV::Dir(path)) => match crate::volume::walked(before.fs.volume(), before.fs.place(), path) {
                    Ok(there) => answers(r, 0) && after.fs.place() == there,
                    Err(_) => refused(r, 2) && after.fs.place() == before.fs.place(),
                },
                _ => refused(r, 9) && after == before,
            },
            None => refused(r, 9) && after == before,
        },
{
}

} // verus!
