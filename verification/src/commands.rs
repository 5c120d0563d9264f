//! The shell's commands: the table they stand in, and what each of them does.
use crate::apex::{is_authenticated, Apex};
use crate::fat16::{change_dir, cwd_path_string, entries_view, list_current_dir, read_file, read_file_range, Fs};
use crate::kernel::Kernel;
use crate::keyboard::{clear_doom_events, Keyboard};
use crate::loader::{detect, format_of, load_and_run, loaded, names_view, planned, Format};
use crate::memory::{info_text, print_info};
use crate::paging::{tables_ok, tables_used, target, Mem, Memory};
use crate::space::space_ok;
use crate::store::{drop_file, dropped, keep_file, kept};
use crate::task::{
    admitted, ended, first_frame, free_slot, kill, lemma_free_slot, lemma_living, list, listing, living, spawn,
    spawn_with_stack, spawned, stack_bytes, TaskState, TaskTable, Tasks, MAX_TASKS, STACK_SIZE, USER_HEAP_BASE,
};
use crate::text::{
    decimal, first_word, indented, is_utf8, next_word, number, padded, parse_number, push_bytes, push_decimal,
    push_indented, push_padded, push_str, same_bytes, split_at_first, split_once, str_of, text_of, trim, trim_start,
    trimmed, trimmed_start,
};
use crate::timer::HZ;
use crate::volume::{content, content_range, path_text, walked, Entry, Image, Place, Volume};
use vstd::prelude::*;
use vstd::slice::slice_to_vec;
use vstd::string::*;
use vstd::utf8::{decode_utf8, encode_utf8, valid_utf8};

verus! {

/// What a command does.
#[derive(Clone, Copy, PartialEq, Eq, Structural)]
pub enum Verb {
    Help,
    Echo,
    Clear,
    Uptime,
    Meminfo,
    Alloc,
    About,
    Ls,
    Cd,
    Pwd,
    Cat,
    ReadAt,
    Write,
    Rm,
    Reboot,
    Halt,
    Apex,
    Ps,
    Kill,
    Gui,
    CDemo,
    CIo,
    Doom,
    Run,
}

/// A row of the table of commands.
#[derive(Clone, Copy)]
pub struct Command {
    pub name: &'static str,
    /// Shown by `help` next to the name.
    pub summary: &'static str,
    /// Whether only an administrator may run it.
    pub requires_apex: bool,
    pub verb: Verb,
}

pub open spec fn command(name: &'static str, summary: &'static str, requires_apex: bool, verb: Verb) -> Command {
    Command { name, summary, requires_apex, verb }
}

fn make(name: &'static str, summary: &'static str, requires_apex: bool, verb: Verb) -> (r: Command)
    ensures
        r == command(name, summary, requires_apex, verb),
{
    Command { name, summary, requires_apex, verb }
}

/// Every command, in the order in which `help` shows them.
pub open spec fn table() -> Seq<Command> {
    seq![
        command("help", "show this list", false, Verb::Help),
        command("echo", "<text>  print <text> back", false, Verb::Echo),
        command("clear", "clear the screen", false, Verb::Clear),
        command("uptime", "show how long the timer's been running", false, Verb::Uptime),
        command("meminfo", "show physical/heap memory usage", false, Verb::Meminfo),
        command("alloc", "<n>  heap-allocate a Vec of <n> u32s and sum it (default 16)", false, Verb::Alloc),
        command("about", "what is this", false, Verb::About),
        command("ls", "list the current directory", false, Verb::Ls),
        command("cd", "[dir]  change directory (.., /, multi-level paths); no args prints cwd", false, Verb::Cd),
        command("pwd", "print the current directory", false, Verb::Pwd),
        command("cat", "<file>  print a file's contents", false, Verb::Cat),
        command("readat", "<file> <offset> <len>  print a byte range without reading the whole file (tests fat16::read_file_range)", false, Verb::ReadAt),
        command("write", "<file> <text>  create/overwrite a file with <text>", false, Verb::Write),
        command("rm", "<file>  delete a file", true, Verb::Rm),
        command("reboot", "reset the machine", true, Verb::Reboot),
        command("halt", "stop the CPU (interrupts off, spins on hlt)", true, Verb::Halt),
        command("apex", "show whether an apex check is currently cached", false, Verb::Apex),
        command("ps", "list running kernel threads (see also: multitasking)", false, Verb::Ps),
        command("kill", "<id>  terminate a running task by ID (see `ps`)", false, Verb::Kill),
        command("gui", "open the window manager (drag windows by their title bar; Esc to exit)", false, Verb::Gui),
        command("cdemo", "run a small C function (malloc/free) compiled into the kernel -- DOOM groundwork", false, Verb::CDemo),
        command("cio", "run compiled C printf + file I/O (fopen/fread/fwrite) -- DOOM groundwork", false, Verb::CIo),
        command("doom", "launch DOOM (needs DOOM1.WAD at the filesystem root)", false, Verb::Doom),
        command("run", "<file>  load and run a flat binary, ELF64, or PE32+ (.exe) executable as its own task", false, Verb::Run),
    ]
}

/// The table of commands.
pub fn commands() -> (r: [Command; 24])
    ensures
        r@ == table(),
{
    let r: [Command; 24] = [
        make("help", "show this list", false, Verb::Help),
        make("echo", "<text>  print <text> back", false, Verb::Echo),
        make("clear", "clear the screen", false, Verb::Clear),
        make("uptime", "show how long the timer's been running", false, Verb::Uptime),
        make("meminfo", "show physical/heap memory usage", false, Verb::Meminfo),
        make("alloc", "<n>  heap-allocate a Vec of <n> u32s and sum it (default 16)", false, Verb::Alloc),
        make("about", "what is this", false, Verb::About),
        make("ls", "list the current directory", false, Verb::Ls),
        make("cd", "[dir]  change directory (.., /, multi-level paths); no args prints cwd", false, Verb::Cd),
        make("pwd", "print the current directory", false, Verb::Pwd),
        make("cat", "<file>  print a file's contents", false, Verb::Cat),
        make("readat", "<file> <offset> <len>  print a byte range without reading the whole file (tests fat16::read_file_range)", false, Verb::ReadAt),
        make("write", "<file> <text>  create/overwrite a file with <text>", false, Verb::Write),
        make("rm", "<file>  delete a file", true, Verb::Rm),
        make("reboot", "reset the machine", true, Verb::Reboot),
        make("halt", "stop the CPU (interrupts off, spins on hlt)", true, Verb::Halt),
        make("apex", "show whether an apex check is currently cached", false, Verb::Apex),
        make("ps", "list running kernel threads (see also: multitasking)", false, Verb::Ps),
        make("kill", "<id>  terminate a running task by ID (see `ps`)", false, Verb::Kill),
        make("gui", "open the window manager (drag windows by their title bar; Esc to exit)", false, Verb::Gui),
        make("cdemo", "run a small C function (malloc/free) compiled into the kernel -- DOOM groundwork", false, Verb::CDemo),
        make("cio", "run compiled C printf + file I/O (fopen/fread/fwrite) -- DOOM groundwork", false, Verb::CIo),
        make("doom", "launch DOOM (needs DOOM1.WAD at the filesystem root)", false, Verb::Doom),
        make("run", "<file>  load and run a flat binary, ELF64, or PE32+ (.exe) executable as its own task", false, Verb::Run),
    ];
    assert(r@ =~= table());
    r
}

/// The first command from row `from` on with a given name.
pub open spec fn named(rows: Seq<Command>, name: Seq<u8>, from: int) -> Option<Command>
    decreases rows.len() - from,
{
    if from >= rows.len() {
        None
    } else if rows[from].name.spec_bytes() == name {
        Some(rows[from])
    } else {
        named(rows, name, from + 1)
    }
}

/// Looks a command up by its name.
pub fn find(name: &[u8]) -> (r: Option<Command>)
    ensures
        r == named(table(), name@, 0),
{
    let rows = commands();
    for i in 0..24usize
        invariant
            rows@ == table(),
            named(table(), name@, 0) == named(table(), name@, i as int),
    {
        let own = text_of(rows[i].name);
        if same_bytes(own.as_slice(), name) {
            return Some(rows[i]);
        }
    }
    None
}

/// What `help` says of the first `n` commands.
pub open spec fn help_lines(rows: Seq<Command>, n: int) -> Seq<u8>
    decreases n,
{
    if n <= 0 {
        "commands:\n".spec_bytes()
    } else {
        let row = rows[n - 1];
        let tag = if row.requires_apex {
            " [apex]\n".spec_bytes()
        } else {
            "\n".spec_bytes()
        };
        help_lines(rows, n - 1) + "  ".spec_bytes() + padded(row.name.spec_bytes(), 12) + " ".spec_bytes()
            + row.summary.spec_bytes() + tag
    }
}

fn cmd_help() -> (r: Vec<u8>)
    ensures
        r@ == help_lines(table(), 24),
{
    let rows = commands();
    let mut out = text_of("commands:\n");
    for i in 0..24usize
        invariant
            rows@ == table(),
            out@ == help_lines(table(), i as int),
    {
        let row = rows[i];
        let name = text_of(row.name);
        push_str(&mut out, "  ");
        push_padded(&mut out, name.as_slice(), 12);
        push_str(&mut out, " ");
        push_str(&mut out, row.summary);
        if row.requires_apex {
            push_str(&mut out, " [apex]\n");
        } else {
            push_str(&mut out, "\n");
        }
    }
    out
}

/// What `uptime` says.
pub open spec fn uptime_text(ticks: u64) -> Seq<u8> {
    let secs = ticks as nat / HZ as nat;
    "up ".spec_bytes() + decimal(secs / 3600) + "h ".spec_bytes() + decimal(secs / 60 % 60) + "m ".spec_bytes()
        + decimal(secs % 60) + "s (".spec_bytes() + decimal(ticks as nat) + " ticks @ ".spec_bytes() + decimal(HZ as nat)
        + "Hz)\n".spec_bytes()
}

fn cmd_uptime(ticks: u64) -> (r: Vec<u8>)
    ensures
        r@ == uptime_text(ticks),
{
    let secs: u64 = ticks / HZ as u64;
    let mut out = text_of("up ");
    push_decimal(&mut out, secs / 3600);
    push_str(&mut out, "h ");
    push_decimal(&mut out, secs / 60 % 60);
    push_str(&mut out, "m ");
    push_decimal(&mut out, secs % 60);
    push_str(&mut out, "s (");
    push_decimal(&mut out, ticks);
    push_str(&mut out, " ticks @ ");
    push_decimal(&mut out, HZ as u64);
    push_str(&mut out, "Hz)\n");
    out
}

/// How many elements `alloc` asks for: 16 unless it is given a number, of
/// which the lower 32 bits count.
pub open spec fn alloc_count(rest: Seq<u8>) -> nat {
    match number(trimmed(rest), usize::MAX as nat) {
        Some(n) => n % 0x1_0000_0000,
        None => 16,
    }
}

/// What `alloc` says: the elements are the numbers from zero on.
pub open spec fn alloc_text(n: nat) -> Seq<u8> {
    "allocated a Vec<u32> of ".spec_bytes() + decimal(n) + " elements (heap-backed), sum = ".spec_bytes() + decimal(
        (n * (n - 1) / 2) as nat,
    ) + "\ndropped it -- freed back to the heap.\n".spec_bytes()
}

proof fn lemma_triangle(n: nat)
    ensures
        n * (n + 1) / 2 == n * (n - 1) / 2 + n,
        n <= 0x1_0000_0000 ==> 0 <= n * (n - 1) / 2 <= 0x8000_0000_0000_0000,
{
    assert(n * (n + 1) == n * (n - 1) + 2 * n) by (nonlinear_arith);
    assert(n * (n - 1) >= 0) by (nonlinear_arith)
        requires
            n >= 0,
    ;
    if n <= 0x1_0000_0000 {
        assert(n * (n - 1) <= 0x1_0000_0000 * 0x1_0000_0000) by (nonlinear_arith)
            requires
                0 <= n <= 0x1_0000_0000,
        ;
    }
}

fn cmd_alloc(rest: &[u8]) -> (r: Vec<u8>)
    ensures
        r@ == alloc_text(alloc_count(rest@)),
{
    let arg = trim(rest);
    let asked: u64 = match parse_number(arg.as_slice(), usize::MAX as u64) {
        Some(n) => n,
        None => 16,
    };
    let n: u32 = (asked % 0x1_0000_0000) as u32;
    let mut v: Vec<u32> = Vec::new();
    for i in 0..n
        invariant
            v@.len() == i,
            forall|k: int| 0 <= k < i ==> #[trigger] v@[k] == k,
    {
        v.push(i);
    }
    let mut sum: u64 = 0;
    let len: usize = v.len();
    assert(0int * (0int - 1) / 2 == 0) by (nonlinear_arith);
    for i in 0..len
        invariant
            v@.len() == len,
            len == n,
            forall|k: int| 0 <= k < len ==> #[trigger] v@[k] == k,
            sum == i * (i - 1) / 2,
    {
        proof {
            lemma_triangle(i as nat);
            lemma_triangle((i + 1) as nat);
            assert(i * (i + 1) == (i + 1) * i) by (nonlinear_arith);
        }
        sum = sum + v[i] as u64;
    }
    let mut out = text_of("allocated a Vec<u32> of ");
    push_decimal(&mut out, len as u64);
    push_str(&mut out, " elements (heap-backed), sum = ");
    push_decimal(&mut out, sum);
    push_str(&mut out, "\ndropped it -- freed back to the heap.\n");
    out
}


// ---- Files ----

/// What `ls` says of the first `n` entries.
pub open spec fn ls_lines(entries: Seq<Entry>, n: int) -> Seq<u8>
    decreases n,
{
    if n <= 0 {
        Seq::empty()
    } else {
        let e = entries[n - 1];
        if e.is_dir {
            ls_lines(entries, n - 1) + "  <DIR>  ".spec_bytes() + e.name + "\n".spec_bytes()
        } else {
            ls_lines(entries, n - 1) + "  ".spec_bytes() + indented(decimal(e.size as nat), 8) + "  ".spec_bytes() + e.name
                + "\n".spec_bytes()
        }
    }
}

/// What `ls` says.
pub open spec fn ls_text(v: Volume, at: Place) -> Seq<u8> {
    match crate::volume::listing(v, at.location) {
        Err(e) => "ls: ".spec_bytes() + e.spec_bytes() + "\n".spec_bytes(),
        Ok(entries) => if entries.len() == 0 {
            "(empty)\n".spec_bytes()
        } else {
            ls_lines(entries, entries.len() as int)
        },
    }
}

fn cmd_ls(fs: &mut Fs) -> (r: Vec<u8>)
    requires
        old(fs).wf(),
    ensures
        final(fs).only_read(*old(fs)),
        r@ == ls_text(old(fs).volume(), old(fs).place()),
{
    match list_current_dir(fs) {
        Err(e) => {
            let mut out = text_of("ls: ");
            push_str(&mut out, e);
            push_str(&mut out, "\n");
            out
        },
        Ok(entries) => {
            if entries.len() == 0 {
                return text_of("(empty)\n");
            }
            let ghost all = entries_view(entries@);
            let mut out: Vec<u8> = Vec::new();
            assert(out@ =~= Seq::empty());
            let n: usize = entries.len();
            for i in 0..n
                invariant
                    n == entries@.len(),
                    all == entries_view(entries@),
                    out@ == ls_lines(all, i as int),
            {
                assert(all[i as int] == entries@[i as int]@);
                if entries[i].is_dir {
                    push_str(&mut out, "  <DIR>  ");
                } else {
                    let mut size: Vec<u8> = Vec::new();
                    push_decimal(&mut size, entries[i].size as u64);
                    assert(size@ =~= decimal(entries@[i as int].size as nat));
                    push_str(&mut out, "  ");
                    push_indented(&mut out, size.as_slice(), 8);
                    push_str(&mut out, "  ");
                }
                push_bytes(&mut out, entries[i].name.as_slice());
                push_str(&mut out, "\n");
            }
            out
        },
    }
}

/// The path of a directory.
pub open spec fn cwd_text(at: Place) -> Seq<u8> {
    if at.stack.len() == 0 {
        seq![0x2Fu8]
    } else {
        path_text(at.stack)
    }
}

fn cmd_pwd(fs: &Fs) -> (r: Vec<u8>)
    ensures
        r@ == cwd_text(fs.place()) + "\n".spec_bytes(),
{
    let mut out = cwd_path_string(fs);
    push_str(&mut out, "\n");
    out
}

/// Without a name `cd` says where it is, like `pwd`.
fn cmd_cd(fs: &mut Fs, rest: &[u8]) -> (r: Vec<u8>)
    requires
        old(fs).wf(),
    ensures
        final(fs).wf(),
        final(fs).volume() == old(fs).volume(),
        if rest@.len() == 0 {
            *final(fs) == *old(fs) && r@ == cwd_text(old(fs).place()) + "\n".spec_bytes()
        } else {
            match walked(old(fs).volume(), old(fs).place(), rest@) {
                Ok(p) => r@.len() == 0 && final(fs).place() == p,
                Err(e) => final(fs).only_read(*old(fs)) && r@ == "cd: ".spec_bytes() + rest@ + ": ".spec_bytes()
                    + e.spec_bytes() + "\n".spec_bytes(),
            }
        },
{
    if rest.len() == 0 {
        return cmd_pwd(fs);
    }
    match change_dir(fs, rest) {
        Ok(_) => Vec::new(),
        Err(e) => {
            let mut out = text_of("cd: ");
            push_bytes(&mut out, rest);
            push_str(&mut out, ": ");
            push_str(&mut out, e);
            push_str(&mut out, "\n");
            out
        },
    }
}

/// What `cat` says: the file, if it is text.
pub open spec fn cat_text(v: Volume, at: Place, path: Seq<u8>) -> Seq<u8> {
    if path.len() == 0 {
        "usage: cat <file>\n".spec_bytes()
    } else {
        match content(v, at, path) {
            Ok(data) => if valid_utf8(data) {
                data
            } else {
                "cat: ".spec_bytes() + path + " is not valid UTF-8 (".spec_bytes() + decimal(data.len())
                    + " bytes)\n".spec_bytes()
            },
            Err(e) => "cat: ".spec_bytes() + path + ": ".spec_bytes() + e.spec_bytes() + "\n".spec_bytes(),
        }
    }
}

fn cmd_cat(fs: &mut Fs, rest: &[u8]) -> (r: Vec<u8>)
    requires
        old(fs).wf(),
    ensures
        final(fs).only_read(*old(fs)),
        r@ == cat_text(old(fs).volume(), old(fs).place(), rest@),
{
    if rest.len() == 0 {
        return text_of("usage: cat <file>\n");
    }
    match read_file(fs, rest) {
        Ok(data) => {
            if is_utf8(data.as_slice()) {
                return data;
            }
            let mut out = text_of("cat: ");
            push_bytes(&mut out, rest);
            push_str(&mut out, " is not valid UTF-8 (");
            push_decimal(&mut out, data.len() as u64);
            push_str(&mut out, " bytes)\n");
            out
        },
        Err(e) => {
            let mut out = text_of("cat: ");
            push_bytes(&mut out, rest);
            push_str(&mut out, ": ");
            push_str(&mut out, e);
            push_str(&mut out, "\n");
            out
        },
    }
}

/// What the standard library's `Debug` for strings gives: the text in double
/// quotes, with escapes.
pub uninterp spec fn debug_form(text: Seq<char>) -> Seq<char>;

/// The text that the formatting of a string with `{:?}` gives, through the
/// standard library's `Debug` for `str`. Nothing is claimed of it but that it
/// depends on the text alone.
#[verifier::external_body]
fn debug_of(text: &str) -> (r: String)
    ensures
        r@ == debug_form(text@),
{
    format!("{:?}", text)
}

/// What `readat` says of `count` bytes of text, shown as `shown`.
pub fn shown_range(count: usize, shown: &str) -> (r: Vec<u8>)
    ensures
        r@ == decimal(count as nat) + " bytes: ".spec_bytes() + shown.spec_bytes() + "\n".spec_bytes(),
{
    let mut out: Vec<u8> = Vec::new();
    push_decimal(&mut out, count as u64);
    assert(out@ =~= decimal(count as nat));
    push_str(&mut out, " bytes: ");
    push_str(&mut out, shown);
    push_str(&mut out, "\n");
    out
}

/// What `readat` says of the bytes it read.
pub open spec fn range_text(data: Seq<u8>) -> Seq<u8> {
    if valid_utf8(data) {
        decimal(data.len()) + " bytes: ".spec_bytes() + encode_utf8(debug_form(decode_utf8(data)))
            + "\n".spec_bytes()
    } else {
        decimal(data.len()) + " bytes (not valid UTF-8)\n".spec_bytes()
    }
}

/// The three words that `readat` takes, if there are so many.
pub open spec fn three_words(t: Seq<u8>) -> Option<(Seq<u8>, Seq<u8>, Seq<u8>)> {
    match first_word(t) {
        None => None,
        Some((a, after_a)) => match first_word(after_a) {
            None => None,
            Some((b, after_b)) => match first_word(after_b) {
                None => None,
                Some((c, _)) => Some((a, b, c)),
            },
        },
    }
}

/// What `readat` says.
pub open spec fn readat_text(v: Volume, at: Place, rest: Seq<u8>) -> Seq<u8> {
    match three_words(rest) {
        None => "usage: readat <file> <offset> <len>\n".spec_bytes(),
        Some((path, offset, len)) => match number(offset, u32::MAX as nat) {
            None => "readat: ".spec_bytes() + offset + " is not a valid offset\n".spec_bytes(),
            Some(o) => match number(len, usize::MAX as nat) {
                None => "readat: ".spec_bytes() + len + " is not a valid length\n".spec_bytes(),
                Some(n) => match content_range(v, at, path, o as int, n as int) {
                    Ok(data) => range_text(data),
                    Err(e) => "readat: ".spec_bytes() + path + ": ".spec_bytes() + e.spec_bytes() + "\n".spec_bytes(),
                },
            },
        },
    }
}

fn three_parts(t: &[u8]) -> (r: Option<(Vec<u8>, Vec<u8>, Vec<u8>)>)
    ensures
        match three_words(t@) {
            None => r is None,
            Some((a, b, c)) => r matches Some((x, y, z)) && x@ == a && y@ == b && z@ == c,
        },
{
    match next_word(t) {
        None => None,
        Some((a, after_a)) => match next_word(after_a.as_slice()) {
            None => None,
            Some((b, after_b)) => match next_word(after_b.as_slice()) {
                None => None,
                Some((c, _)) => Some((a, b, c)),
            },
        },
    }
}

fn range_shown(data: &Vec<u8>) -> (r: Vec<u8>)
    ensures
        r@ == range_text(data@),
{
    match str_of(data.as_slice()) {
        Some(text) => {
            let shown = debug_of(text);
            proof {
                vstd::utf8::encode_utf8_decode_utf8(text@);
            }
            shown_range(data.len(), shown.as_str())
        },
        None => {
            let mut out: Vec<u8> = Vec::new();
            push_decimal(&mut out, data.len() as u64);
            assert(out@ =~= decimal(data@.len()));
            push_str(&mut out, " bytes (not valid UTF-8)\n");
            out
        },
    }
}

fn cmd_readat(fs: &mut Fs, rest: &[u8]) -> (r: Vec<u8>)
    requires
        old(fs).wf(),
    ensures
        final(fs).only_read(*old(fs)),
        r@ == readat_text(old(fs).volume(), old(fs).place(), rest@),
{
    let (path, offset_text, len_text) = match three_parts(rest) {
        None => {
            return text_of("usage: readat <file> <offset> <len>\n");
        },
        Some(p) => p,
    };
    let offset: u32 = match parse_number(offset_text.as_slice(), u32::MAX as u64) {
        Some(n) => n as u32,
        None => {
            let mut out = text_of("readat: ");
            push_bytes(&mut out, offset_text.as_slice());
            push_str(&mut out, " is not a valid offset\n");
            return out;
        },
    };
    let len: usize = match parse_number(len_text.as_slice(), usize::MAX as u64) {
        Some(n) => n as usize,
        None => {
            let mut out = text_of("readat: ");
            push_bytes(&mut out, len_text.as_slice());
            push_str(&mut out, " is not a valid length\n");
            return out;
        },
    };
    match read_file_range(fs, path.as_slice(), offset, len) {
        Ok(data) => range_shown(&data),
        Err(e) => {
            let mut out = text_of("readat: ");
            push_bytes(&mut out, path.as_slice());
            push_str(&mut out, ": ");
            push_str(&mut out, e);
            push_str(&mut out, "\n");
            out
        },
    }
}

/// The name that `write` is given, and the line.
pub open spec fn write_parts(rest: Seq<u8>) -> (Seq<u8>, Seq<u8>) {
    match split_at_first(rest, 0x20) {
        Some((name, text)) => (name, trimmed_start(text).push(0x0A)),
        None => (rest, seq![0x0Au8]),
    }
}

/// The disk after `write`, and what it says.
pub open spec fn written(v: Volume, at: Place, rest: Seq<u8>) -> (Image, Seq<u8>) {
    let (name, data) = write_parts(rest);
    if name.len() == 0 {
        (v.image, "usage: write <file> <text>\n".spec_bytes())
    } else {
        match kept(v, at, name, data) {
            (image, Ok(_)) => (
                image,
                "wrote ".spec_bytes() + decimal(data.len()) + " bytes to ".spec_bytes() + name + "\n".spec_bytes(),
            ),
            (image, Err(e)) => (
                image,
                "write: ".spec_bytes() + name + ": ".spec_bytes() + e.spec_bytes() + "\n".spec_bytes(),
            ),
        }
    }
}

fn cmd_write(fs: &mut Fs, rest: &[u8]) -> (r: Vec<u8>)
    requires
        old(fs).wf(),
    ensures
        final(fs).wf(),
        final(fs).only_disk(*old(fs)),
        (final(fs).disk@, r@) == written(old(fs).volume(), old(fs).place(), rest@),
{
    let (name, data) = match split_once(rest, 0x20) {
        Some((name, text)) => {
            let mut data = trim_start(text.as_slice());
            data.push(0x0A);
            (name, data)
        },
        None => {
            let mut data: Vec<u8> = Vec::new();
            data.push(0x0A);
            assert(data@ =~= seq![0x0Au8]);
            (slice_to_vec(rest), data)
        },
    };
    if name.len() == 0 {
        return text_of("usage: write <file> <text>\n");
    }
    match keep_file(fs, name.as_slice(), data.as_slice()) {
        Ok(_) => {
            let mut out = text_of("wrote ");
            push_decimal(&mut out, data.len() as u64);
            push_str(&mut out, " bytes to ");
            push_bytes(&mut out, name.as_slice());
            push_str(&mut out, "\n");
            out
        },
        Err(e) => {
            let mut out = text_of("write: ");
            push_bytes(&mut out, name.as_slice());
            push_str(&mut out, ": ");
            push_str(&mut out, e);
            push_str(&mut out, "\n");
            out
        },
    }
}

/// The disk after `rm`, and what it says.
pub open spec fn erased(v: Volume, at: Place, path: Seq<u8>) -> (Image, Seq<u8>) {
    if path.len() == 0 {
        (v.image, "usage: rm <file>\n".spec_bytes())
    } else {
        match dropped(v, at, path) {
            (image, Ok(_)) => (image, "removed ".spec_bytes() + path + "\n".spec_bytes()),
            (image, Err(e)) => (
                image,
                "rm: ".spec_bytes() + path + ": ".spec_bytes() + e.spec_bytes() + "\n".spec_bytes(),
            ),
        }
    }
}

fn cmd_rm(fs: &mut Fs, rest: &[u8]) -> (r: Vec<u8>)
    requires
        old(fs).wf(),
    ensures
        final(fs).wf(),
        final(fs).only_disk(*old(fs)),
        (final(fs).disk@, r@) == erased(old(fs).volume(), old(fs).place(), rest@),
{
    if rest.len() == 0 {
        return text_of("usage: rm <file>\n");
    }
    match drop_file(fs, rest) {
        Ok(_) => {
            let mut out = text_of("removed ");
            push_bytes(&mut out, rest);
            push_str(&mut out, "\n");
            out
        },
        Err(e) => {
            let mut out = text_of("rm: ");
            push_bytes(&mut out, rest);
            push_str(&mut out, ": ");
            push_str(&mut out, e);
            push_str(&mut out, "\n");
            out
        },
    }
}

// ---- Tasks ----

/// What `ps` says of the first `n` tasks.
pub open spec fn ps_lines(rows: Seq<(u64, &'static str, TaskState, u64, bool)>, n: int) -> Seq<u8>
    decreases n,
{
    if n <= 0 {
        "  ID   NAME       STATE           TICKS\n".spec_bytes()
    } else {
        let (id, name, state, ticks, current) = rows[n - 1];
        let mark = if current {
            "* ".spec_bytes()
        } else {
            "  ".spec_bytes()
        };
        ps_lines(rows, n - 1) + mark + padded(decimal(id as nat), 4) + " ".spec_bytes() + padded(name.spec_bytes(), 10)
            + " ".spec_bytes() + padded(state.name().spec_bytes(), 10) + " ".spec_bytes() + indented(
            decimal(ticks as nat),
            10,
        ) + "\n".spec_bytes()
    }
}

/// What `ps` says, where the two demonstration tasks have counted to `a` and
/// `b`.
pub open spec fn ps_text(tasks: Tasks, a: u64, b: u64) -> Seq<u8> {
    let rows = listing(tasks, MAX_TASKS as int);
    ps_lines(rows, rows.len() as int) + "counter-a's loop count: ".spec_bytes() + decimal(a as nat)
        + ", counter-b's loop count: ".spec_bytes() + decimal(b as nat)
        + " (proof both are actually spinning, not just scheduled)\n".spec_bytes()
}

fn cmd_ps(tasks: &TaskTable, a: u64, b: u64) -> (r: Vec<u8>)
    requires
        tasks.wf(),
    ensures
        r@ == ps_text(tasks@, a, b),
{
    let rows = list(tasks);
    let mut out = text_of("  ID   NAME       STATE           TICKS\n");
    let n: usize = rows.len();
    for i in 0..n
        invariant
            n == rows@.len(),
            out@ == ps_lines(rows@, i as int),
    {
        let (id, name, state, ticks, current) = rows[i];
        if current {
            push_str(&mut out, "* ");
        } else {
            push_str(&mut out, "  ");
        }
        let mut id_text: Vec<u8> = Vec::new();
        push_decimal(&mut id_text, id);
        assert(id_text@ =~= decimal(id as nat));
        let mut ticks_text: Vec<u8> = Vec::new();
        push_decimal(&mut ticks_text, ticks);
        assert(ticks_text@ =~= decimal(ticks as nat));
        let name_text = text_of(name);
        let state_text = text_of(state.label());
        push_padded(&mut out, id_text.as_slice(), 4);
        push_str(&mut out, " ");
        push_padded(&mut out, name_text.as_slice(), 10);
        push_str(&mut out, " ");
        push_padded(&mut out, state_text.as_slice(), 10);
        push_str(&mut out, " ");
        push_indented(&mut out, ticks_text.as_slice(), 10);
        push_str(&mut out, "\n");
    }
    push_str(&mut out, "counter-a's loop count: ");
    push_decimal(&mut out, a);
    push_str(&mut out, ", counter-b's loop count: ");
    push_decimal(&mut out, b);
    push_str(&mut out, " (proof both are actually spinning, not just scheduled)\n");
    out
}

/// The name of the first listed task with a number, from row `from` on.
pub open spec fn name_of(rows: Seq<(u64, &'static str, TaskState, u64, bool)>, id: u64, from: int) -> Option<
    &'static str,
>
    decreases rows.len() - from,
{
    if from >= rows.len() {
        None
    } else if rows[from].0 == id {
        Some(rows[from].1)
    } else {
        name_of(rows, id, from + 1)
    }
}

fn find_name(rows: &Vec<(u64, &'static str, TaskState, u64, bool)>, id: u64) -> (r: Option<&'static str>)
    ensures
        r == name_of(rows@, id, 0),
{
    let n: usize = rows.len();
    for i in 0..n
        invariant
            n == rows@.len(),
            name_of(rows@, id, 0) == name_of(rows@, id, i as int),
    {
        if rows[i].0 == id {
            return Some(rows[i].1);
        }
    }
    None
}

/// What `kill` does: the tasks after it, what it says, and whether the screen
/// is cleared first, as it is for a game that had taken it.
pub open spec fn killed(tasks: Tasks, rest: Seq<u8>) -> (Tasks, Seq<u8>, bool) {
    let arg = trimmed(rest);
    if arg.len() == 0 {
        (tasks, "usage: kill <id>  (see `ps` for IDs)\n".spec_bytes(), false)
    } else {
        match number(arg, u64::MAX as nat) {
            None => (tasks, "kill: ".spec_bytes() + arg + ": not a valid task ID\n".spec_bytes(), false),
            Some(id) => if id == 0 {
                (tasks, "kill: refusing to kill task 0 (the shell itself)\n".spec_bytes(), false)
            } else {
                match name_of(listing(tasks, MAX_TASKS as int), id as u64, 0) {
                    None => (
                        tasks,
                        "kill: no live task with ID ".spec_bytes() + decimal(id) + "\n".spec_bytes(),
                        false,
                    ),
                    Some(name) => {
                        let who = "kill: task #".spec_bytes() + decimal(id) + " (".spec_bytes() + name.spec_bytes();
                        match living(tasks.slots, id as u64, 0) {
                            Some(i) => (
                                Tasks { slots: tasks.slots.update(i, Some(ended(tasks.slots[i]->0))), ..tasks },
                                who + ") terminated\n".spec_bytes(),
                                name.spec_bytes() == "doom".spec_bytes(),
                            ),
                            None => (tasks, who + ") was already terminated\n".spec_bytes(), false),
                        }
                    },
                }
            },
        }
    }
}

fn cmd_kill(tasks: &mut TaskTable, rest: &[u8]) -> (r: (Vec<u8>, bool))
    requires
        old(tasks).wf(),
    ensures
        final(tasks).wf(),
        (final(tasks)@, r.0@, r.1) == killed(old(tasks)@, rest@),
{
    let arg = trim(rest);
    if arg.len() == 0 {
        return (text_of("usage: kill <id>  (see `ps` for IDs)\n"), false);
    }
    let id: u64 = match parse_number(arg.as_slice(), u64::MAX) {
        Some(n) => n,
        None => {
            let mut out = text_of("kill: ");
            push_bytes(&mut out, arg.as_slice());
            push_str(&mut out, ": not a valid task ID\n");
            return (out, false);
        },
    };
    if id == 0 {
        return (text_of("kill: refusing to kill task 0 (the shell itself)\n"), false);
    }
    let rows = list(tasks);
    match find_name(&rows, id) {
        None => {
            let mut out = text_of("kill: no live task with ID ");
            push_decimal(&mut out, id);
            push_str(&mut out, "\n");
            (out, false)
        },
        Some(name) => {
            let mut out = text_of("kill: task #");
            push_decimal(&mut out, id);
            push_str(&mut out, " (");
            push_str(&mut out, name);
            if kill(tasks, id) {
                push_str(&mut out, ") terminated\n");
                let own = text_of(name);
                let game = text_of("doom");
                (out, same_bytes(own.as_slice(), game.as_slice()))
            } else {
                push_str(&mut out, ") was already terminated\n");
                (out, false)
            }
        },
    }
}

/// The stack of the game's task.
pub const DOOM_STACK_SIZE: usize = 0x10_0000;

/// The tasks after one more kernel thread was asked for: added in the first
/// free slot, if there is one.
pub open spec fn thread_added(
    before: Tasks,
    after: Tasks,
    name: &'static str,
    entry: u64,
    size: int,
    base: u64,
) -> bool {
    match free_slot(before.slots, 0) {
        None => after == before,
        Some(i) => {
            &&& admitted(before, after, i, None)
            &&& spawned(
                after.slots[i]->0,
                before.next_id,
                name,
                first_frame(before.trampoline, entry, 0),
                (base + stack_bytes(size)) as u64,
                before.kernel_cr3,
                USER_HEAP_BASE,
                0,
                None,
                Seq::empty(),
            )
        },
    }
}

/// Starts the two tasks that do nothing but count.
pub fn spawn_demo_tasks(tasks: &mut TaskTable, entry_a: u64, entry_b: u64, base_a: u64, base_b: u64)
    requires
        old(tasks).wf(),
        base_a + STACK_SIZE <= u64::MAX,
        base_b + STACK_SIZE <= u64::MAX,
    ensures
        final(tasks).wf(),
        exists|between: Tasks|
            thread_added(old(tasks)@, between, "counter-a", entry_a, STACK_SIZE as int, base_a) && thread_added(
                between,
                final(tasks)@,
                "counter-b",
                entry_b,
                STACK_SIZE as int,
                base_b,
            ),
{
    spawn(tasks, "counter-a", entry_a, base_a);
    let ghost between = tasks@;
    spawn(tasks, "counter-b", entry_b, base_b);
    assert(thread_added(between, tasks@, "counter-b", entry_b, STACK_SIZE as int, base_b));
}

/// What `doom` says.
pub open spec fn doom_text(tasks: Tasks) -> Seq<u8> {
    let first =
        "doom: launching as its own task -- quit from DOOM's own menu to return to the shell, or run `kill <id>` (see `ps`) to stop it early.\n".spec_bytes();
    match free_slot(tasks.slots, 0) {
        Some(_) => first + "doom: task #".spec_bytes() + decimal(tasks.next_id as nat) + " spawned\n".spec_bytes(),
        None => first + "doom: failed to spawn task (out of task slots?)\n".spec_bytes(),
    }
}

/// Keys that were typed before the game starts are forgotten.
pub open spec fn events_cleared(before: Keyboard, after: Keyboard) -> bool {
    &&& after.shift == before.shift
    &&& after.chars == before.chars
    &&& after.events.room() == before.events.room()
    &&& after.events@.len() == 0
}

fn cmd_doom(tasks: &mut TaskTable, keyboard: &mut Keyboard, entry: u64, base: u64) -> (r: Vec<u8>)
    requires
        old(tasks).wf(),
        old(keyboard).wf(),
        base + DOOM_STACK_SIZE <= u64::MAX,
    ensures
        final(tasks).wf(),
        final(keyboard).wf(),
        events_cleared(*old(keyboard), *final(keyboard)),
        thread_added(old(tasks)@, final(tasks)@, "doom", entry, DOOM_STACK_SIZE as int, base),
        r@ == doom_text(old(tasks)@),
{
    let mut out = text_of(
        "doom: launching as its own task -- quit from DOOM's own menu to return to the shell, or run `kill <id>` (see `ps`) to stop it early.\n",
    );
    clear_doom_events(keyboard);
    match spawn_with_stack(tasks, "doom", entry, DOOM_STACK_SIZE, base) {
        Some(id) => {
            push_str(&mut out, "doom: task #");
            push_decimal(&mut out, id);
            push_str(&mut out, " spawned\n");
        },
        None => {
            push_str(&mut out, "doom: failed to spawn task (out of task slots?)\n");
        },
    }
    out
}

// ---- Running programs ----

proof fn lemma_trimmed_start_len(t: Seq<u8>)
    ensures
        trimmed_start(t).len() <= t.len(),
    decreases t.len(),
{
    let n = crate::text::space_at_start(t);
    if n > 0 {
        lemma_trimmed_start_len(t.skip(n));
    }
}

/// Whether a word is an assignment to an environment variable.
pub open spec fn assigns(word: Seq<u8>) -> bool {
    split_at_first(word, 0x3D) matches Some((name, _)) && name.len() > 0
}

/// The assignments that `run` is given before the path, and the path.
pub open spec fn run_parts(t: Seq<u8>) -> (Seq<Seq<u8>>, Seq<u8>)
    decreases t.len() via run_parts_decreases
{
    match split_at_first(t, 0x20) {
        Some((word, after)) => if assigns(word) {
            let (env, path) = run_parts(trimmed_start(after));
            (seq![word] + env, path)
        } else {
            (Seq::empty(), t)
        },
        None => (Seq::empty(), t),
    }
}

proof fn lemma_split_shorter(t: Seq<u8>)
    ensures
        split_at_first(t, 0x20) matches Some((word, after)) ==> after.len() < t.len(),
{
    crate::text::lemma_first_of(t, 0x20, 0);
}

#[via_fn]
proof fn run_parts_decreases(t: Seq<u8>) {
    lemma_split_shorter(t);
    if let Some((_, after)) = split_at_first(t, 0x20) {
        lemma_trimmed_start_len(after);
    }
}

fn split_run(rest: &[u8]) -> (r: (Vec<Vec<u8>>, Vec<u8>))
    ensures
        names_view(r.0@) == run_parts(rest@).0,
        r.1@ == run_parts(rest@).1,
{
    let mut env: Vec<Vec<u8>> = Vec::new();
    let mut left = slice_to_vec(rest);
    let ghost whole = run_parts(rest@);
    assert(names_view(env@) + run_parts(left@).0 =~= whole.0);
    loop
        invariant
            whole == run_parts(rest@),
            names_view(env@) + run_parts(left@).0 == whole.0,
            run_parts(left@).1 == whole.1,
        decreases left@.len(),
    {
        let ghost now = left@;
        match split_once(left.as_slice(), 0x20) {
            Some((word, after)) => {
                let assignment: bool = match split_once(word.as_slice(), 0x3D) {
                    Some((name, _)) => name.len() > 0,
                    None => false,
                };
                if !assignment {
                    assert(names_view(env@) =~= whole.0);
                    return (env, left);
                }
                proof {
                    lemma_split_shorter(now);
                    lemma_trimmed_start_len(after@);
                }
                let ghost sofar = names_view(env@);
                let ghost w = word@;
                env.push(word);
                left = trim_start(after.as_slice());
                assert(names_view(env@) =~= sofar.push(w));
                assert(names_view(env@) + run_parts(left@).0 =~= sofar + run_parts(now).0);
            },
            None => {
                assert(names_view(env@) =~= whole.0);
                return (env, left);
            },
        }
    }
}

/// What `run` calls the task of a program.
pub open spec fn run_name(f: Format) -> &'static str {
    match f {
        Format::Elf => "run:elf",
        Format::Pe => "run:pe",
        Format::Flat => "run:bin",
    }
}

/// How starting a program ends: the number of its task and its format, or
/// why not.
pub open spec fn launch(
    v: Volume,
    at: Place,
    mem: Mem,
    source: u64,
    tasks: Tasks,
    path: Seq<u8>,
    env: Seq<Seq<u8>>,
    bytes: Seq<u8>,
) -> Result<(u64, Format), &'static str> {
    match planned(v, at, bytes) {
        Err(e) => Err(e),
        Ok(p) => match loaded(mem, source, p, seq![path], env).1 {
            Err(e) => Err(e),
            Ok(_) => match free_slot(tasks.slots, 0) {
                None => Err("loader: out of task slots"),
                Some(_) => Ok((tasks.next_id, p.images[0].format)),
            },
        },
    }
}

/// What `run` says.
pub open spec fn run_text(v: Volume, at: Place, mem: Mem, source: u64, tasks: Tasks, rest: Seq<u8>) -> Seq<u8> {
    let (env, path) = run_parts(trimmed(rest));
    if path.len() == 0 {
        "usage: run [VAR=value ...] <file>  (flat binary, ELF64, or PE32+/.exe)\n".spec_bytes()
    } else {
        match content(v, at, path) {
            Err(e) => "run: ".spec_bytes() + path + ": ".spec_bytes() + e.spec_bytes() + "\n".spec_bytes(),
            Ok(bytes) => match launch(v, at, mem, source, tasks, path, env, bytes) {
                Err(e) => "run: ".spec_bytes() + path + ": ".spec_bytes() + e.spec_bytes() + "\n".spec_bytes(),
                Ok((id, format)) => "run: ".spec_bytes() + path + ": recognized as ".spec_bytes()
                    + format.name().spec_bytes() + ", task #".spec_bytes() + decimal(id as nat)
                    + " spawned\n".spec_bytes(),
            },
        }
    }
}

/// What `run` does to memory and to the tasks.
pub open spec fn run_effect(
    v: Volume,
    at: Place,
    source: u64,
    rest: Seq<u8>,
    base: u64,
    mem: Mem,
    after: Mem,
    tasks: Tasks,
    tasks_after: Tasks,
) -> bool {
    let (env, path) = run_parts(trimmed(rest));
    match content(v, at, path) {
        Ok(bytes) if path.len() > 0 => match planned(v, at, bytes) {
            Ok(p) => match loaded(mem, source, p, seq![path], env) {
                (m, Ok((pml4, sp))) => {
                    &&& after == m
                    &&& match free_slot(tasks.slots, 0) {
                        None => tasks_after == tasks,
                        Some(i) => {
                            &&& admitted(tasks, tasks_after, i, None)
                            &&& spawned(
                                tasks_after.slots[i]->0,
                                tasks.next_id,
                                run_name(format_of(bytes)),
                                first_frame(tasks.enter_user, p.entry, sp),
                                (base + STACK_SIZE) as u64,
                                pml4,
                                USER_HEAP_BASE,
                                0,
                                None,
                                path,
                            )
                        },
                    }
                },
                (m, Err(_)) => after == m && tasks_after == tasks,
            },
            Err(_) => after == mem && tasks_after == tasks,
        },
        _ => after == mem && tasks_after == tasks,
    }
}

fn cmd_run(fs: &mut Fs, mem: &mut Memory, tasks: &mut TaskTable, rest: &[u8], base: u64) -> (r: Vec<u8>)
    requires
        old(fs).wf(),
        old(mem).wf(),
        old(tasks).wf(),
        tables_ok(old(mem).ram@, target(old(mem).cr3)),
        tables_used(old(mem)@, target(old(mem).cr3)),
        base + STACK_SIZE <= u64::MAX,
    ensures
        final(fs).only_read(*old(fs)),
        final(mem).wf(),
        final(tasks).wf(),
        final(mem).cr3 == old(mem).cr3,
        final(mem).nx == old(mem).nx,
        final(mem).pmm.ready() == old(mem).pmm.ready(),
        final(mem).pmm.offset() == old(mem).pmm.offset(),
        tables_ok(final(mem).ram@, target(final(mem).cr3)),
        tables_used(final(mem)@, target(final(mem).cr3)),
        space_ok(old(mem)@, target(old(mem).cr3)) ==> space_ok(final(mem)@, target(final(mem).cr3)),
        r@ == run_text(
            old(fs).volume(),
            old(fs).place(),
            old(mem)@,
            target(old(mem).cr3),
            old(tasks)@,
            rest@,
        ),
        run_effect(
            old(fs).volume(),
            old(fs).place(),
            target(old(mem).cr3),
            rest@,
            base,
            old(mem)@,
            final(mem)@,
            old(tasks)@,
            final(tasks)@,
        ),
{
    let all = trim(rest);
    let (env, path) = split_run(all.as_slice());
    if path.len() == 0 {
        return text_of("usage: run [VAR=value ...] <file>  (flat binary, ELF64, or PE32+/.exe)\n");
    }
    let mut out = text_of("run: ");
    push_bytes(&mut out, path.as_slice());
    let bytes = match read_file(fs, path.as_slice()) {
        Ok(data) => data,
        Err(e) => {
            push_str(&mut out, ": ");
            push_str(&mut out, e);
            push_str(&mut out, "\n");
            return out;
        },
    };
    let name: &'static str = match detect(bytes.as_slice()) {
        Format::Elf => "run:elf",
        Format::Pe => "run:pe",
        Format::Flat => "run:bin",
    };
    let mut argv: Vec<Vec<u8>> = Vec::new();
    let ghost p = path@;
    argv.push(path);
    assert(names_view(argv@) =~= seq![p]);
    match load_and_run(fs, mem, tasks, name, &argv, &env, bytes.as_slice(), base) {
        Ok((id, format)) => {
            push_str(&mut out, ": recognized as ");
            push_str(&mut out, format.label());
            push_str(&mut out, ", task #");
            push_decimal(&mut out, id);
            push_str(&mut out, " spawned\n");
        },
        Err(e) => {
            push_str(&mut out, ": ");
            push_str(&mut out, e);
            push_str(&mut out, "\n");
        },
    }
    out
}

// ---- Carrying commands out ----

/// What the shell works on.
pub struct System {
    pub kernel: Kernel,
    pub keyboard: Keyboard,
    pub apex: Apex,
}

impl System {
    pub open spec fn wf(self) -> bool {
        &&& self.kernel.mem.wf()
        &&& self.kernel.tasks.wf()
        &&& self.kernel.fs.wf()
        &&& self.keyboard.wf()
    }

    /// The tables of the address space in use are in order.
    pub open spec fn mapped(self) -> bool {
        &&& tables_ok(self.kernel.mem.ram@, target(self.kernel.mem.cr3))
        &&& tables_used(self.kernel.mem@, target(self.kernel.mem.cr3))
    }

    /// `self` is `before`, but for the volume.
    pub open spec fn only_fs(self, before: System) -> bool {
        &&& self.kernel.mem == before.kernel.mem
        &&& self.kernel.regions == before.kernel.regions
        &&& self.kernel.tasks == before.kernel.tasks
        &&& self.keyboard == before.keyboard
        &&& self.apex == before.apex
    }

    /// `self` is `before`, but for how many sectors have been read.
    pub open spec fn only_read(self, before: System) -> bool {
        self.only_fs(before) && self.kernel.fs.only_read(before.kernel.fs)
    }
}

/// What a command reads off the machine: the clock, the heap, how far the
/// demonstration tasks have counted, where the game starts, and where the
/// stack of a new task is.
#[derive(Clone, Copy)]
pub struct Readings {
    pub now: u64,
    pub heap_free: u64,
    pub heap_mapped: u64,
    pub counter_a: u64,
    pub counter_b: u64,
    pub doom_entry: u64,
    pub base: u64,
}

impl Readings {
    pub open spec fn wf(self) -> bool {
        &&& self.base + DOOM_STACK_SIZE <= u64::MAX
        &&& self.base + STACK_SIZE <= u64::MAX
    }
}

/// What is left to do for the machine itself.
#[derive(Clone, Copy, PartialEq, Eq, Structural)]
pub enum Action {
    Nothing,
    Gui,
    CDemo,
    CIo,
    Reboot,
    Halt,
}

/// What comes of a command: whether the screen is cleared, what is printed
/// after that, and what is done then.
pub struct Outcome {
    pub clear: bool,
    pub text: Vec<u8>,
    pub action: Action,
}

/// An outcome that only prints.
pub open spec fn says(o: Outcome, text: Seq<u8>) -> bool {
    !o.clear && o.text@ == text && o.action == Action::Nothing
}

/// An outcome that leaves something to do.
pub open spec fn leaves(o: Outcome, text: Seq<u8>, action: Action) -> bool {
    !o.clear && o.text@ == text && o.action == action
}

/// What `apex` says.
pub open spec fn apex_text(remembered: bool) -> Seq<u8> {
    if remembered {
        "apex: authenticated (cached -- won't re-prompt for a few minutes)\n".spec_bytes()
    } else {
        "apex: not authenticated -- the next [apex] command will prompt\n".spec_bytes()
    }
}

/// What a command does, from one state to the next.
pub open spec fn performed(
    verb: Verb,
    rest: Seq<u8>,
    at: Readings,
    before: System,
    after: System,
    o: Outcome,
) -> bool {
    let fs = before.kernel.fs;
    let v = fs.volume();
    let p = fs.place();
    match verb {
        Verb::Help => after == before && says(o, help_lines(table(), 24)),
        Verb::Echo => after == before && says(o, rest + "\n".spec_bytes()),
        Verb::Clear => after == before && o.clear && o.text@.len() == 0 && o.action == Action::Nothing,
        Verb::Uptime => after == before && says(o, uptime_text(at.now)),
        Verb::Meminfo => after == before && says(
            o,
            info_text(
                before.kernel.mem@.frames.used.len(),
                before.kernel.mem@.frames.free(),
                at.heap_free as nat,
                at.heap_mapped as nat,
            ),
        ),
        Verb::Alloc => after == before && says(o, alloc_text(alloc_count(rest))),
        Verb::About => after == before && says(
            o,
            "KonjacOS -- a hobby kernel, still very much under construction.\n".spec_bytes(),
        ),
        Verb::Ls => after.only_read(before) && says(o, ls_text(v, p)),
        Verb::Cd => after.only_fs(before) && after.kernel.fs.volume() == v && if rest.len() == 0 {
            after == before && says(o, cwd_text(p) + "\n".spec_bytes())
        } else {
            match walked(v, p, rest) {
                Ok(q) => after.kernel.fs.place() == q && says(o, Seq::empty()),
                Err(e) => after.only_read(before) && says(
                    o,
                    "cd: ".spec_bytes() + rest + ": ".spec_bytes() + e.spec_bytes() + "\n".spec_bytes(),
                ),
            }
        },
        Verb::Pwd => after == before && says(o, cwd_text(p) + "\n".spec_bytes()),
        Verb::Cat => after.only_read(before) && says(o, cat_text(v, p, rest)),
        Verb::ReadAt => after.only_read(before) && says(o, readat_text(v, p, rest)),
        Verb::Write => {
            &&& after.only_fs(before)
            &&& after.kernel.fs.only_disk(fs)
            &&& after.kernel.fs.disk@ == written(v, p, rest).0
            &&& says(o, written(v, p, rest).1)
        },
        Verb::Rm => {
            &&& after.only_fs(before)
            &&& after.kernel.fs.only_disk(fs)
            &&& after.kernel.fs.disk@ == erased(v, p, rest).0
            &&& says(o, erased(v, p, rest).1)
        },
        Verb::Reboot => after == before && leaves(o, "rebooting...\n".spec_bytes(), Action::Reboot),
        Verb::Halt => after == before && leaves(o, "halting.\n".spec_bytes(), Action::Halt),
        Verb::Apex => after == before && says(o, apex_text(before.apex.remembers(at.now))),
        Verb::Ps => after == before && says(o, ps_text(before.kernel.tasks@, at.counter_a, at.counter_b)),
        Verb::Kill => {
            let (tasks, text, clear) = killed(before.kernel.tasks@, rest);
            &&& after.kernel.only_tasks(before.kernel)
            &&& after.keyboard == before.keyboard
            &&& after.apex == before.apex
            &&& after.kernel.tasks@ == tasks
            &&& o.text@ == text
            &&& o.clear == clear
            &&& o.action == Action::Nothing
        },
        Verb::Gui => after == before && leaves(o, Seq::empty(), Action::Gui),
        Verb::CDemo => after == before && leaves(
            o,
            "cdemo: calling into compiled C code...\n".spec_bytes(),
            Action::CDemo,
        ),
        Verb::CIo => after == before && leaves(o, Seq::empty(), Action::CIo),
        Verb::Doom => {
            &&& after.kernel.only_tasks(before.kernel)
            &&& after.apex == before.apex
            &&& events_cleared(before.keyboard, after.keyboard)
            &&& thread_added(
                before.kernel.tasks@,
                after.kernel.tasks@,
                "doom",
                at.doom_entry,
                DOOM_STACK_SIZE as int,
                at.base,
            )
            &&& says(o, doom_text(before.kernel.tasks@))
        },
        Verb::Run => {
            let mem = before.kernel.mem;
            &&& after.kernel.fs.only_read(fs)
            &&& after.kernel.regions == before.kernel.regions
            &&& after.keyboard == before.keyboard
            &&& after.apex == before.apex
            &&& after.kernel.mem.cr3 == mem.cr3
            &&& after.kernel.mem.nx == mem.nx
            &&& after.kernel.mem.pmm.ready() == mem.pmm.ready()
            &&& after.kernel.mem.pmm.offset() == mem.pmm.offset()
            &&& run_effect(
                v,
                p,
                target(mem.cr3),
                rest,
                at.base,
                mem@,
                after.kernel.mem@,
                before.kernel.tasks@,
                after.kernel.tasks@,
            )
            &&& says(o, run_text(v, p, mem@, target(mem.cr3), before.kernel.tasks@, rest))
        },
    }
}

fn say(text: Vec<u8>) -> (r: Outcome)
    ensures
        says(r, text@),
{
    Outcome { clear: false, text, action: Action::Nothing }
}

fn leave(text: Vec<u8>, action: Action) -> (r: Outcome)
    ensures
        leaves(r, text@, action),
{
    Outcome { clear: false, text, action }
}

fn no_text() -> (r: Vec<u8>)
    ensures
        r@ == Seq::<u8>::empty(),
{
    let r: Vec<u8> = Vec::new();
    assert(r@ =~= Seq::empty());
    r
}

fn cmd_echo(rest: &[u8]) -> (r: Vec<u8>)
    ensures
        r@ == rest@ + "\n".spec_bytes(),
{
    let mut out = slice_to_vec(rest);
    push_str(&mut out, "\n");
    out
}

fn cmd_apex(apex: &Apex, now: u64) -> (r: Vec<u8>)
    ensures
        r@ == apex_text(apex.remembers(now)),
{
    if is_authenticated(apex, now) {
        text_of("apex: authenticated (cached -- won't re-prompt for a few minutes)\n")
    } else {
        text_of("apex: not authenticated -- the next [apex] command will prompt\n")
    }
}

/// Whatever a command does to the tasks, one that was running still has its
/// place in the table.
proof fn lemma_still_running(verb: Verb, rest: Seq<u8>, at: Readings, before: System, after: System, o: Outcome)
    requires
        before.kernel.tasks.wf(),
        before.kernel.tasks@.running() is Some,
        performed(verb, rest, at, before, after, o),
    ensures
        after.kernel.tasks@.running() is Some,
{
    let slots = before.kernel.tasks@.slots;
    lemma_free_slot(slots, 0);
    if let Some(id) = number(trimmed(rest), u64::MAX as nat) {
        lemma_living(slots, id as u64, 0);
    }
}

/// Carries a command out.
#[verifier::spinoff_prover]
#[verifier::rlimit(40)]
pub fn perform(sys: &mut System, verb: Verb, rest: &[u8], at: &Readings) -> (r: Outcome)
    requires
        old(sys).wf(),
        old(sys).mapped(),
        at.wf(),
    ensures
        final(sys).wf(),
        final(sys).mapped(),
        old(sys).kernel.wf() ==> final(sys).kernel.wf(),
        performed(verb, rest@, *at, *old(sys), *final(sys), r),
{
    let r = match verb {
        Verb::Help => say(cmd_help()),
        Verb::Echo => say(cmd_echo(rest)),
        Verb::Clear => Outcome { clear: true, text: no_text(), action: Action::Nothing },
        Verb::Uptime => say(cmd_uptime(at.now)),
        Verb::Meminfo => say(print_info(&sys.kernel.mem.pmm, at.heap_free, at.heap_mapped)),
        Verb::Alloc => say(cmd_alloc(rest)),
        Verb::About => say(text_of("KonjacOS -- a hobby kernel, still very much under construction.\n")),
        Verb::Ls => say(cmd_ls(&mut sys.kernel.fs)),
        Verb::Cd => {
            let text = cmd_cd(&mut sys.kernel.fs, rest);
            assert(text@.len() == 0 ==> text@ =~= Seq::empty());
            say(text)
        },
        Verb::Pwd => say(cmd_pwd(&sys.kernel.fs)),
        Verb::Cat => say(cmd_cat(&mut sys.kernel.fs, rest)),
        Verb::ReadAt => say(cmd_readat(&mut sys.kernel.fs, rest)),
        Verb::Write => say(cmd_write(&mut sys.kernel.fs, rest)),
        Verb::Rm => say(cmd_rm(&mut sys.kernel.fs, rest)),
        Verb::Reboot => leave(text_of("rebooting...\n"), Action::Reboot),
        Verb::Halt => leave(text_of("halting.\n"), Action::Halt),
        Verb::Apex => say(cmd_apex(&sys.apex, at.now)),
        Verb::Ps => say(cmd_ps(&sys.kernel.tasks, at.counter_a, at.counter_b)),
        Verb::Kill => {
            let (text, clear) = cmd_kill(&mut sys.kernel.tasks, rest);
            Outcome { clear, text, action: Action::Nothing }
        },
        Verb::Gui => leave(no_text(), Action::Gui),
        Verb::CDemo => leave(text_of("cdemo: calling into compiled C code...\n"), Action::CDemo),
        Verb::CIo => leave(no_text(), Action::CIo),
        Verb::Doom => say(cmd_doom(&mut sys.kernel.tasks, &mut sys.keyboard, at.doom_entry, at.base)),
        Verb::Run => say(
            cmd_run(&mut sys.kernel.fs, &mut sys.kernel.mem, &mut sys.kernel.tasks, rest, at.base),
        ),
    };
    proof {
        if old(sys).kernel.wf() {
            lemma_still_running(verb, rest@, *at, *old(sys), *sys, r);
        }
    }
    r
}

/// A whole number in decimal, with a minus sign where there is one.
pub open spec fn signed(v: int) -> Seq<u8> {
    if v < 0 {
        "-".spec_bytes() + decimal((-v) as nat)
    } else {
        decimal(v as nat)
    }
}

fn push_signed(out: &mut Vec<u8>, v: i64)
    ensures
        final(out)@ == old(out)@ + signed(v as int),
{
    let ghost before = out@;
    if v < 0 {
        push_str(out, "-");
        push_decimal(out, (-(v as i128)) as u64);
    } else {
        push_decimal(out, v as u64);
    }
    assert(out@ =~= before + signed(v as int));
}

/// What compiled code that reports a number is answered with.
pub fn konjac_report(value: i64) -> (r: Vec<u8>)
    ensures
        r@ == "cdemo: C code (via malloc/free through the kernel heap) computed sum = ".spec_bytes() + signed(value as int)
            + "\n".spec_bytes(),
{
    let mut out = text_of("cdemo: C code (via malloc/free through the kernel heap) computed sum = ");
    push_signed(&mut out, value);
    push_str(&mut out, "\n");
    out
}

/// What `cdemo` says at its end.
pub fn cdemo_done(result: i64) -> (r: Vec<u8>)
    ensures
        r@ == "cdemo: cdemo_run() returned ".spec_bytes() + signed(result as int)
            + " (expected 4032 = sum of 0,2,4,...,126)\n".spec_bytes(),
{
    let mut out = text_of("cdemo: cdemo_run() returned ");
    push_signed(&mut out, result);
    push_str(&mut out, " (expected 4032 = sum of 0,2,4,...,126)\n");
    out
}

/// What `cio` says at its end.
pub fn cio_done(result: i32) -> (r: Vec<u8>)
    ensures
        r@ == if result == 0 {
            "cio: iodemo_run() returned 0 (success)\n".spec_bytes()
        } else {
            "cio: iodemo_run() failed, step ".spec_bytes() + signed(result as int) + "\n".spec_bytes()
        },
{
    if result == 0 {
        return text_of("cio: iodemo_run() returned 0 (success)\n");
    }
    let mut out = text_of("cio: iodemo_run() failed, step ");
    push_signed(&mut out, result as i64);
    push_str(&mut out, "\n");
    out
}

// ---- What the table guarantees ----

/// A number that tells the names in the table apart.
spec fn mark(name: Seq<u8>) -> int {
    name.len() * 0x100_0000 + name[0] * 0x1_0000 + name[1] * 0x100 + name[name.len() as int / 2]
}

/// The mark of each name in the table.
spec fn marks() -> Seq<int> {
    seq![
        0x468656c, 0x4656368, 0x5636c65, 0x6757069, 0x76d6569, 0x5616c6c,
        0x561626f, 0x26c7373, 0x2636464, 0x3707777, 0x3636161, 0x6726564,
        0x5777269, 0x2726d6d, 0x672656f, 0x468616c, 0x4617065, 0x2707373,
        0x46b696c, 0x3677575, 0x5636465, 0x3636969, 0x4646f6f, 0x3727575,
    ]
}

/// Whether a text is made of small letters, and not empty.
pub open spec fn lower_case(s: Seq<u8>) -> bool {
    s.len() > 0 && forall|i: int| 0 <= i < s.len() ==> 0x61 <= #[trigger] s[i] <= 0x7A
}

proof fn lemma_first_marks()
    ensures
        mark(table()[0].name.spec_bytes()) == marks()[0],
        lower_case(table()[0].name.spec_bytes()),
        mark(table()[1].name.spec_bytes()) == marks()[1],
        lower_case(table()[1].name.spec_bytes()),
        mark(table()[2].name.spec_bytes()) == marks()[2],
        lower_case(table()[2].name.spec_bytes()),
        mark(table()[3].name.spec_bytes()) == marks()[3],
        lower_case(table()[3].name.spec_bytes()),
        mark(table()[4].name.spec_bytes()) == marks()[4],
        lower_case(table()[4].name.spec_bytes()),
        mark(table()[5].name.spec_bytes()) == marks()[5],
        lower_case(table()[5].name.spec_bytes()),
{
    reveal_strlit("help");
    is_ascii_spec_bytes("help");
    reveal_strlit("echo");
    is_ascii_spec_bytes("echo");
    reveal_strlit("clear");
    is_ascii_spec_bytes("clear");
    reveal_strlit("uptime");
    is_ascii_spec_bytes("uptime");
    reveal_strlit("meminfo");
    is_ascii_spec_bytes("meminfo");
    reveal_strlit("alloc");
    is_ascii_spec_bytes("alloc");
}

proof fn lemma_second_marks()
    ensures
        mark(table()[6].name.spec_bytes()) == marks()[6],
        lower_case(table()[6].name.spec_bytes()),
        mark(table()[7].name.spec_bytes()) == marks()[7],
        lower_case(table()[7].name.spec_bytes()),
        mark(table()[8].name.spec_bytes()) == marks()[8],
        lower_case(table()[8].name.spec_bytes()),
        mark(table()[9].name.spec_bytes()) == marks()[9],
        lower_case(table()[9].name.spec_bytes()),
        mark(table()[10].name.spec_bytes()) == marks()[10],
        lower_case(table()[10].name.spec_bytes()),
        mark(table()[11].name.spec_bytes()) == marks()[11],
        lower_case(table()[11].name.spec_bytes()),
{
    reveal_strlit("about");
    is_ascii_spec_bytes("about");
    reveal_strlit("ls");
    is_ascii_spec_bytes("ls");
    reveal_strlit("cd");
    is_ascii_spec_bytes("cd");
    reveal_strlit("pwd");
    is_ascii_spec_bytes("pwd");
    reveal_strlit("cat");
    is_ascii_spec_bytes("cat");
    reveal_strlit("readat");
    is_ascii_spec_bytes("readat");
}

proof fn lemma_third_marks()
    ensures
        mark(table()[12].name.spec_bytes()) == marks()[12],
        lower_case(table()[12].name.spec_bytes()),
        mark(table()[13].name.spec_bytes()) == marks()[13],
        lower_case(table()[13].name.spec_bytes()),
        mark(table()[14].name.spec_bytes()) == marks()[14],
        lower_case(table()[14].name.spec_bytes()),
        mark(table()[15].name.spec_bytes()) == marks()[15],
        lower_case(table()[15].name.spec_bytes()),
        mark(table()[16].name.spec_bytes()) == marks()[16],
        lower_case(table()[16].name.spec_bytes()),
        mark(table()[17].name.spec_bytes()) == marks()[17],
        lower_case(table()[17].name.spec_bytes()),
{
    reveal_strlit("write");
    is_ascii_spec_bytes("write");
    reveal_strlit("rm");
    is_ascii_spec_bytes("rm");
    reveal_strlit("reboot");
    is_ascii_spec_bytes("reboot");
    reveal_strlit("halt");
    is_ascii_spec_bytes("halt");
    reveal_strlit("apex");
    is_ascii_spec_bytes("apex");
    reveal_strlit("ps");
    is_ascii_spec_bytes("ps");
}

proof fn lemma_last_marks()
    ensures
        mark(table()[18].name.spec_bytes()) == marks()[18],
        lower_case(table()[18].name.spec_bytes()),
        mark(table()[19].name.spec_bytes()) == marks()[19],
        lower_case(table()[19].name.spec_bytes()),
        mark(table()[20].name.spec_bytes()) == marks()[20],
        lower_case(table()[20].name.spec_bytes()),
        mark(table()[21].name.spec_bytes()) == marks()[21],
        lower_case(table()[21].name.spec_bytes()),
        mark(table()[22].name.spec_bytes()) == marks()[22],
        lower_case(table()[22].name.spec_bytes()),
        mark(table()[23].name.spec_bytes()) == marks()[23],
        lower_case(table()[23].name.spec_bytes()),
{
    reveal_strlit("kill");
    is_ascii_spec_bytes("kill");
    reveal_strlit("gui");
    is_ascii_spec_bytes("gui");
    reveal_strlit("cdemo");
    is_ascii_spec_bytes("cdemo");
    reveal_strlit("cio");
    is_ascii_spec_bytes("cio");
    reveal_strlit("doom");
    is_ascii_spec_bytes("doom");
    reveal_strlit("run");
    is_ascii_spec_bytes("run");
}

proof fn lemma_marks(i: int)
    requires
        0 <= i < 24,
    ensures
        mark(table()[i].name.spec_bytes()) == marks()[i],
        lower_case(table()[i].name.spec_bytes()),
{
    lemma_first_marks();
    lemma_second_marks();
    lemma_third_marks();
    lemma_last_marks();
}

proof fn lemma_named(i: int, from: int)
    requires
        0 <= from <= i < 24,
    ensures
        named(table(), table()[i].name.spec_bytes(), from) == Some(table()[i]),
    decreases i - from,
{
    if from < i {
        lemma_marks(from);
        lemma_marks(i);
        lemma_named(i, from + 1);
    }
}

proof fn lemma_not_named(name: Seq<u8>, from: int)
    requires
        0 <= from <= 24,
    ensures
        match named(table(), name, from) {
            Some(c) => exists|i: int| from <= i < 24 && #[trigger] table()[i] == c && c.name.spec_bytes() == name,
            None => forall|i: int| from <= i < 24 ==> (#[trigger] table()[i]).name.spec_bytes() != name,
        },
    decreases 24 - from,
{
    if from < 24 {
        if table()[from].name.spec_bytes() != name {
            lemma_not_named(name, from + 1);
        }
    }
}

/// Every command of the table is found under its own name, and under no other:
/// what is found under a name is the one row with exactly that name, and where
/// no row has it nothing is found.
pub proof fn law_commands_are_found(i: int, name: Seq<u8>)
    requires
        0 <= i < table().len(),
    ensures
        named(table(), table()[i].name.spec_bytes(), 0) == Some(table()[i]),
        named(table(), name, 0) == Some(table()[i]) <==> table()[i].name.spec_bytes() == name,
        named(table(), name, 0) is None <==> forall|k: int|
            0 <= k < table().len() ==> (#[trigger] table()[k]).name.spec_bytes() != name,
{
    lemma_named(i, 0);
    lemma_not_named(name, 0);
}

/// A name that is empty, or has anything but small letters in it, is no
/// command's.
pub proof fn law_other_names_are_not_found(name: Seq<u8>)
    requires
        !lower_case(name),
    ensures
        named(table(), name, 0) is None,
{
    lemma_not_named(name, 0);
    if let Some(c) = named(table(), name, 0) {
        let i = choose|i: int| 0 <= i < 24 && #[trigger] table()[i] == c && c.name.spec_bytes() == name;
        lemma_marks(i);
    }
}

/// The commands that need a password are those that remove files or stop the
/// machine.
pub proof fn law_guarded_commands(i: int)
    requires
        0 <= i < table().len(),
    ensures
        table()[i].requires_apex == (table()[i].verb == Verb::Rm || table()[i].verb == Verb::Reboot || table()[i].verb
            == Verb::Halt),
{
}
} // verus!
