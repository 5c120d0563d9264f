//! The shell: a line that is typed and edited, the command it names, and the
//! password that some commands ask for first.
use crate::apex::{
    authenticate, hashed, keyed, law_only_a_password_opens, opening, printing, requested, AskingV, Dialogue,
    DialogueV, Verdict, CACHE_TICKS,
};
use crate::commands::{find, named, perform, performed, says, table, Action, Outcome, Readings, System, Verb};
use crate::text::{
    push_bytes, push_str, split_at_first, split_once, text_of, trim, trim_start, trimmed, trimmed_start,
};
use vstd::prelude::*;
use vstd::string::*;
use vstd::utf8::valid_utf8;

verus! {

pub const LINE_MAX: usize = 120;

pub const PROMPT: &'static str = "konjac> ";

/// How many ticks the cursor stays as it is: half a second.
pub const BLINK_INTERVAL_TICKS: u64 = 50;

/// The line that is being typed: the first `len` bytes of `buf`.
pub struct LineBuffer {
    pub buf: [u8; 120],
    pub len: usize,
}

impl LineBuffer {
    pub open spec fn wf(self) -> bool {
        self.len <= LINE_MAX
    }

    pub open spec fn view(self) -> Seq<u8> {
        self.buf@.take(self.len as int)
    }

    pub fn new() -> (r: LineBuffer)
        ensures
            r.wf(),
            r@.len() == 0,
    {
        LineBuffer { buf: [0; 120], len: 0 }
    }

    /// Adds a byte, unless the line is full.
    pub fn push(&mut self, byte: u8) -> (r: bool)
        requires
            old(self).wf(),
        ensures
            final(self).wf(),
            r == (old(self)@.len() < LINE_MAX),
            final(self)@ == if r {
                old(self)@.push(byte)
            } else {
                old(self)@
            },
    {
        let ghost before = self@;
        if self.len >= LINE_MAX {
            return false;
        }
        self.buf[self.len] = byte;
        self.len = self.len + 1;
        assert(self@ =~= before.push(byte));
        true
    }

    /// Takes the last byte away, if there is one.
    pub fn pop(&mut self) -> (r: bool)
        requires
            old(self).wf(),
        ensures
            final(self).wf(),
            r == (old(self)@.len() > 0),
            final(self)@ == if r {
                old(self)@.drop_last()
            } else {
                old(self)@
            },
    {
        let ghost before = self@;
        if self.len == 0 {
            return false;
        }
        self.len = self.len - 1;
        assert(self@ =~= before.drop_last());
        true
    }

    /// The line as text: empty if it is none.
    pub fn as_str(&self) -> (r: Vec<u8>)
        requires
            self.wf(),
        ensures
            r@ == if valid_utf8(self@) {
                self@
            } else {
                Seq::empty()
            },
    {
        let mut out: Vec<u8> = Vec::new();
        for i in 0..self.len
            invariant
                self.wf(),
                out@ == self@.take(i as int),
        {
            out.push(self.buf[i]);
            assert(out@ =~= self@.take(i + 1));
        }
        assert(self@.take(self.len as int) =~= self@);
        if crate::text::is_utf8(out.as_slice()) {
            out
        } else {
            let none: Vec<u8> = Vec::new();
            assert(none@ =~= Seq::empty());
            none
        }
    }

    pub fn clear(&mut self)
        requires
            old(self).wf(),
        ensures
            final(self).wf(),
            final(self)@.len() == 0,
    {
        self.len = 0;
    }
}

/// The word that names a command, and what follows it; none on an empty line.
pub open spec fn parsed(line: Seq<u8>) -> Option<(Seq<u8>, Seq<u8>)> {
    let t = trimmed(line);
    if t.len() == 0 {
        None
    } else {
        match split_at_first(t, 0x20) {
            Some((word, rest)) => Some((word, trimmed_start(rest))),
            None => Some((t, Seq::empty())),
        }
    }
}

fn parse(line: &[u8]) -> (r: Option<(Vec<u8>, Vec<u8>)>)
    ensures
        match parsed(line@) {
            Some((word, rest)) => r matches Some((w, x)) && w@ == word && x@ == rest,
            None => r is None,
        },
{
    let t = trim(line);
    if t.len() == 0 {
        return None;
    }
    match split_once(t.as_slice(), 0x20) {
        Some((word, rest)) => Some((word, trim_start(rest.as_slice()))),
        None => {
            let rest: Vec<u8> = Vec::new();
            assert(rest@ =~= Seq::empty());
            Some((t, rest))
        },
    }
}

/// A command that waits for a password.
pub struct Pending {
    pub dialogue: Dialogue,
    pub verb: Verb,
    pub rest: Vec<u8>,
}

/// What is said when a command may not run.
pub open spec fn refusal(command: Seq<u8>) -> Seq<u8> {
    command + ": apex authentication failed, aborting.\n".spec_bytes()
}

/// What a line does: the outcome, and the command that waits if it needs a
/// password first.
pub open spec fn ran(
    line: Seq<u8>,
    at: Readings,
    before: System,
    after: System,
    o: Outcome,
    waiting: Option<Pending>,
) -> bool {
    let fs = before.kernel.fs;
    match parsed(line) {
        None => after == before && says(o, Seq::empty()) && waiting is None,
        Some((word, rest)) => match named(table(), word, 0) {
            None => {
                &&& after == before
                &&& says(o, "unknown command: ".spec_bytes() + word + " (try `help`)\n".spec_bytes())
                &&& waiting is None
            },
            Some(c) => if !c.requires_apex {
                performed(c.verb, rest, at, before, after, o) && waiting is None
            } else {
                let (verdict, asking, error) = requested(before.apex.remembers(at.now), fs.volume(), fs.place());
                match (verdict, asking) {
                    (Verdict::Granted, _) => performed(c.verb, rest, at, before, after, o) && waiting is None,
                    (_, Some(a)) => {
                        &&& after.only_read(before)
                        &&& says(o, opening(word, asking, error))
                        &&& waiting matches Some(p) && p.verb == c.verb && p.rest@ == rest && p.dialogue@
                            == (DialogueV { command: word, asking: a, line: Seq::empty() })
                    },
                    (_, None) => {
                        &&& after.only_read(before)
                        &&& says(o, opening(word, asking, error) + refusal(word))
                        &&& waiting is None
                    },
                }
            },
        },
    }
}

fn say(text: Vec<u8>) -> (r: Outcome)
    ensures
        says(r, text@),
{
    Outcome { clear: false, text, action: Action::Nothing }
}

fn nothing() -> (r: Outcome)
    ensures
        says(r, Seq::empty()),
{
    let text: Vec<u8> = Vec::new();
    assert(text@ =~= Seq::empty());
    say(text)
}

fn push_refusal(out: &mut Vec<u8>, command: &[u8])
    ensures
        final(out)@ == old(out)@ + refusal(command@),
{
    let ghost before = out@;
    push_bytes(out, command);
    push_str(out, ": apex authentication failed, aborting.\n");
    assert(out@ =~= before + refusal(command@));
}

/// Runs the command that a line names.
#[verifier::spinoff_prover]
pub fn run_command(sys: &mut System, line: &[u8], at: &Readings) -> (r: (Outcome, Option<Pending>))
    requires
        old(sys).wf(),
        old(sys).mapped(),
        at.wf(),
    ensures
        final(sys).wf(),
        final(sys).mapped(),
        old(sys).kernel.wf() ==> final(sys).kernel.wf(),
        ran(line@, *at, *old(sys), *final(sys), r.0, r.1),
{
    let (word, rest) = match parse(line) {
        None => {
            return (nothing(), None);
        },
        Some(p) => p,
    };
    let c = match find(word.as_slice()) {
        None => {
            let mut out = text_of("unknown command: ");
            push_bytes(&mut out, word.as_slice());
            push_str(&mut out, " (try `help`)\n");
            return (say(out), None);
        },
        Some(c) => c,
    };
    if !c.requires_apex {
        return (perform(sys, c.verb, rest.as_slice(), at), None);
    }
    let (text, verdict, dialogue) = authenticate(&sys.apex, &mut sys.kernel.fs, at.now, word.as_slice());
    match verdict {
        Verdict::Granted => (perform(sys, c.verb, rest.as_slice(), at), None),
        _ => match dialogue {
            Some(d) => (say(text), Some(Pending { dialogue: d, verb: c.verb, rest })),
            None => {
                let mut text = text;
                push_refusal(&mut text, word.as_slice());
                (say(text), None)
            },
        },
    }
}

/// What a key leads to: what appears at once, what comes of a command, and
/// whether the prompt appears after that.
pub struct Reaction {
    pub echo: Vec<u8>,
    pub outcome: Outcome,
    pub prompt: bool,
}

/// The shell between keys.
pub struct Shell {
    pub line: LineBuffer,
    pub last_blink: u64,
    pub waiting: Option<Pending>,
}

/// The system after a password was typed: the lock may be open, and the
/// volume may hold a new hash.
pub open spec fn unlocked(before: System, after: System, image: crate::volume::Image, until: u64) -> bool {
    &&& after.kernel.mem == before.kernel.mem
    &&& after.kernel.regions == before.kernel.regions
    &&& after.kernel.tasks == before.kernel.tasks
    &&& after.keyboard == before.keyboard
    &&& after.kernel.fs.only_disk(before.kernel.fs)
    &&& after.kernel.fs.disk@ == image
    &&& after.apex.authenticated_until == until
}

/// What a key does while a password is asked for.
pub open spec fn password_key(
    p: Pending,
    key: u8,
    at: Readings,
    before: System,
    after: System,
    r: Reaction,
    waiting: Option<Pending>,
) -> bool {
    let fs = before.kernel.fs;
    let (d, text, verdict, image) = keyed(p.dialogue@, key, fs.volume(), fs.place());
    &&& r.echo@ == text
    &&& match verdict {
        Verdict::Waiting => {
            &&& unlocked(before, after, image, before.apex.authenticated_until)
            &&& says(r.outcome, Seq::empty())
            &&& !r.prompt
            &&& waiting matches Some(q) && q.dialogue@ == d && q.verb == p.verb && q.rest@ == p.rest@
        },
        Verdict::Denied => {
            &&& unlocked(before, after, image, before.apex.authenticated_until)
            &&& says(r.outcome, refusal(p.dialogue@.command))
            &&& r.prompt
            &&& waiting is None
        },
        Verdict::Granted => {
            &&& exists|open: System|
                unlocked(before, open, image, (at.now + CACHE_TICKS) as u64) && #[trigger] performed(
                    p.verb,
                    p.rest@,
                    at,
                    open,
                    after,
                    r.outcome,
                )
            &&& r.prompt
            &&& waiting is None
        },
    }
}

/// What a key does while a line is typed.
pub open spec fn line_key(
    line: Seq<u8>,
    key: u8,
    at: Readings,
    before: System,
    after: System,
    r: Reaction,
    line_after: Seq<u8>,
    waiting: Option<Pending>,
) -> bool {
    if key == 0x0A {
        let text = if valid_utf8(line) {
            line
        } else {
            Seq::empty()
        };
        &&& r.echo@ == seq![0x0Au8]
        &&& line_after.len() == 0
        &&& ran(text, at, before, after, r.outcome, waiting)
        &&& r.prompt == (waiting is None)
    } else {
        &&& after == before
        &&& says(r.outcome, Seq::empty())
        &&& !r.prompt
        &&& waiting is None
        &&& if key == 0x08 && line.len() > 0 {
            line_after == line.drop_last() && r.echo@ == seq![0x08u8]
        } else if printing(key) && line.len() < LINE_MAX {
            line_after == line.push(key) && r.echo@ == seq![key]
        } else {
            line_after == line && r.echo@.len() == 0
        }
    }
}

impl Shell {
    pub open spec fn wf(self) -> bool {
        self.line.wf()
    }

    /// The shell at its first prompt.
    pub fn new(now: u64) -> (r: Shell)
        ensures
            r.wf(),
            r.line@.len() == 0,
            r.last_blink == now,
            r.waiting is None,
    {
        Shell { line: LineBuffer::new(), last_blink: now, waiting: None }
    }

    /// Whether the cursor flips at tick `now`.
    pub fn blink(&mut self, now: u64) -> (r: bool)
        ensures
            r == (now.wrapping_sub(old(self).last_blink) >= BLINK_INTERVAL_TICKS),
            final(self).line == old(self).line,
            final(self).waiting == old(self).waiting,
            final(self).last_blink == if r {
                now
            } else {
                old(self).last_blink
            },
    {
        if now.wrapping_sub(self.last_blink) >= BLINK_INTERVAL_TICKS {
            self.last_blink = now;
            true
        } else {
            false
        }
    }

    fn take_password_key(&mut self, p: Pending, sys: &mut System, key: u8, at: &Readings) -> (r: Reaction)
        requires
            old(self).wf(),
            old(self).waiting is None,
            old(sys).wf(),
            old(sys).mapped(),
            at.wf(),
            at.now <= u64::MAX - CACHE_TICKS,
        ensures
            final(self).wf(),
            final(self).line == old(self).line,
            final(self).last_blink == old(self).last_blink,
            final(sys).wf(),
            final(sys).mapped(),
            old(sys).kernel.wf() ==> final(sys).kernel.wf(),
            password_key(p, key, *at, *old(sys), *final(sys), r, final(self).waiting),
    {
        let ghost before = *sys;
        let mut p = p;
        let (echo, verdict) = p.dialogue.take_key(key, &mut sys.apex, &mut sys.kernel.fs, at.now);
        match verdict {
            Verdict::Waiting => {
                self.waiting = Some(p);
                Reaction { echo, outcome: nothing(), prompt: false }
            },
            Verdict::Denied => {
                let mut text: Vec<u8> = Vec::new();
                push_refusal(&mut text, p.dialogue.command.as_slice());
                assert(text@ =~= refusal(p.dialogue@.command));
                Reaction { echo, outcome: say(text), prompt: true }
            },
            Verdict::Granted => {
                let ghost open = *sys;
                let outcome = perform(sys, p.verb, p.rest.as_slice(), at);
                assert(performed(p.verb, p.rest@, *at, open, *sys, outcome));
                Reaction { echo, outcome, prompt: true }
            },
        }
    }

    fn take_line_key(&mut self, sys: &mut System, key: u8, at: &Readings) -> (r: Reaction)
        requires
            old(self).wf(),
            old(self).waiting is None,
            old(sys).wf(),
            old(sys).mapped(),
            at.wf(),
        ensures
            final(self).wf(),
            final(self).last_blink == old(self).last_blink,
            final(sys).wf(),
            final(sys).mapped(),
            old(sys).kernel.wf() ==> final(sys).kernel.wf(),
            line_key(
                old(self).line@,
                key,
                *at,
                *old(sys),
                *final(sys),
                r,
                final(self).line@,
                final(self).waiting,
            ),
    {
        let mut echo: Vec<u8> = Vec::new();
        if key == 0x0A {
            echo.push(0x0A);
            assert(echo@ =~= seq![0x0Au8]);
            let text = self.line.as_str();
            let (outcome, waiting) = run_command(sys, text.as_slice(), at);
            let prompt: bool = waiting.is_none();
            self.waiting = waiting;
            self.line.clear();
            return Reaction { echo, outcome, prompt };
        }
        if key == 0x08 {
            if self.line.pop() {
                echo.push(0x08);
                assert(echo@ =~= seq![0x08u8]);
            }
        } else if key >= 0x20 && key <= 0x7E {
            if self.line.push(key) {
                echo.push(key);
                assert(echo@ =~= seq![key]);
            }
        }
        Reaction { echo, outcome: nothing(), prompt: false }
    }

    /// Takes a key. While a command waits for a password the key is part of
    /// it, else of the line.
    pub fn take_key(&mut self, sys: &mut System, key: u8, at: &Readings) -> (r: Reaction)
        requires
            old(self).wf(),
            old(sys).wf(),
            old(sys).mapped(),
            at.wf(),
            at.now <= u64::MAX - CACHE_TICKS,
        ensures
            final(self).wf(),
            final(sys).wf(),
            final(self).last_blink == old(self).last_blink,
            final(sys).mapped(),
            old(sys).kernel.wf() ==> final(sys).kernel.wf(),
            match old(self).waiting {
                Some(p) => final(self).line == old(self).line && password_key(
                    p,
                    key,
                    *at,
                    *old(sys),
                    *final(sys),
                    r,
                    final(self).waiting,
                ),
                None => line_key(
                    old(self).line@,
                    key,
                    *at,
                    *old(sys),
                    *final(sys),
                    r,
                    final(self).line@,
                    final(self).waiting,
                ),
            },
    {
        match self.waiting.take() {
            Some(p) => self.take_password_key(p, sys, key, at),
            None => self.take_line_key(sys, key, at),
        }
    }
}

/// What the shell says when it starts.
pub fn greeting() -> (r: Vec<u8>)
    ensures
        r@ == "\nKonjacOS shell. Type `help` for a list of commands.\n".spec_bytes() + PROMPT.spec_bytes(),
{
    let mut out = text_of("\nKonjacOS shell. Type `help` for a list of commands.\n");
    push_str(&mut out, PROMPT);
    out
}


/// A command that needs a password does nothing while none has been given: it
/// waits, or is refused, and the system stays as it is.
pub proof fn law_guarded_commands_wait(
    line: Seq<u8>,
    at: Readings,
    before: System,
    after: System,
    o: Outcome,
    waiting: Option<Pending>,
)
    requires
        parsed(line) matches Some((word, rest)) && named(table(), word, 0) matches Some(c) && c.requires_apex,
        !before.apex.remembers(at.now),
        ran(line, at, before, after, o, waiting),
    ensures
        after.only_read(before),
        o.action == Action::Nothing,
        !o.clear,
{
}

/// While a password is asked for, a command is carried out only once the
/// right one has been typed, or a new one twice.
pub proof fn law_password_comes_first(
    p: Pending,
    key: u8,
    at: Readings,
    before: System,
    after: System,
    r: Reaction,
    waiting: Option<Pending>,
)
    requires
        password_key(p, key, at, before, after, r, waiting),
        !(key == 0x0A && match p.dialogue@.asking {
            AskingV::New => false,
            AskingV::Confirm(first) => p.dialogue@.line == first && first.len() > 0,
            AskingV::Existing(stored, left) => hashed(p.dialogue@.line) == stored,
        }),
    ensures
        after.kernel.mem == before.kernel.mem,
        after.kernel.tasks == before.kernel.tasks,
        after.kernel.fs.disk@ == before.kernel.fs.disk@,
        after.apex.authenticated_until == before.apex.authenticated_until,
        r.outcome.action == Action::Nothing,
        !r.outcome.clear,
{
    let fs = before.kernel.fs;
    if keyed(p.dialogue@, key, fs.volume(), fs.place()).2 == Verdict::Granted {
        law_only_a_password_opens(p.dialogue@, key, fs.volume(), fs.place());
    }
}
} // verus!
