//! The lock on commands that only an administrator may run: a password,
//! of which the volume holds the hash, and a success that is remembered for a
//! while.
use crate::fat16::{read_file, Fs};
use crate::fat16_dirs::{law_write_then_read, slot_clear, sound_dir};
use crate::fat16_laws::{law_plain_names_are_storable, links_ok, proper, storable};
use crate::sha256::{hex_bytes, lemma_sha256_len, sha256, sha256_hex};
use crate::store::{keep_file, kept};
use crate::text::{is_utf8, push_bytes, push_str, same_bytes, text_of, trim, trimmed};
use crate::timer::HZ;
use crate::volume::{
    components, content, image_ok, last_index, parent_and_name, DirLocation, Image, Layout, Place, Volume,
};
use vstd::prelude::*;
use vstd::slice::slice_to_vec;
use vstd::string::*;
use vstd::utf8::{is_leading_byte_width_1, partial_valid_utf8_extend_ascii_block, valid_utf8};

verus! {

pub const PASSWORD_PATH: &'static str = "/APEX.PWD";

pub const MAX_PASSWORD_LEN: usize = 64;

pub const MAX_ATTEMPTS: u32 = 3;

/// How long a success is remembered, in ticks.
pub const CACHE_TICKS: u64 = 300 * 100;

pub const NO_SUCH_FILE: &'static str = "no such file or directory";

pub const CORRUPT: &'static str = "apex: password file is corrupt (not valid text)";

/// Until which tick the last success is remembered; zero if there was none.
pub struct Apex {
    pub authenticated_until: u64,
}

impl Apex {
    /// Nobody has given a password.
    pub fn new() -> (r: Apex)
        ensures
            r.authenticated_until == 0,
    {
        Apex { authenticated_until: 0 }
    }

    pub open spec fn remembers(self, now: u64) -> bool {
        self.authenticated_until != 0 && now < self.authenticated_until
    }

    fn cache_success(&mut self, now: u64)
        requires
            now <= u64::MAX - CACHE_TICKS,
        ensures
            final(self).authenticated_until == now + CACHE_TICKS,
    {
        self.authenticated_until = now + CACHE_TICKS;
    }
}

/// Whether a command could run at tick `now` without a password.
pub fn is_authenticated(apex: &Apex, now: u64) -> (r: bool)
    ensures
        r == apex.remembers(now),
{
    apex.authenticated_until != 0 && now < apex.authenticated_until
}

/// The hash on the volume: none if no password has been set.
pub open spec fn stored_hash(v: Volume, at: Place) -> Result<Option<Seq<u8>>, &'static str> {
    match content(v, at, PASSWORD_PATH.spec_bytes()) {
        Ok(data) => if valid_utf8(data) {
            Ok(Some(trimmed(data)))
        } else {
            Err(CORRUPT)
        },
        Err(e) => if e.spec_bytes() == NO_SUCH_FILE.spec_bytes() {
            Ok(None)
        } else {
            Err(e)
        },
    }
}

fn load_stored_hash(fs: &mut Fs) -> (r: Result<Option<Vec<u8>>, &'static str>)
    requires
        old(fs).wf(),
    ensures
        final(fs).only_read(*old(fs)),
        match stored_hash(old(fs).volume(), old(fs).place()) {
            Ok(Some(h)) => r matches Ok(Some(v)) && v@ == h,
            Ok(None) => r matches Ok(None),
            Err(e) => r == Err::<Option<Vec<u8>>, &'static str>(e),
        },
{
    let path = text_of(PASSWORD_PATH);
    match read_file(fs, path.as_slice()) {
        Ok(data) => {
            if is_utf8(data.as_slice()) {
                Ok(Some(trim(data.as_slice())))
            } else {
                Err(CORRUPT)
            }
        },
        Err(e) => {
            let said = text_of(e);
            let absent = text_of(NO_SUCH_FILE);
            if same_bytes(said.as_slice(), absent.as_slice()) {
                Ok(None)
            } else {
                Err(e)
            }
        },
    }
}

/// What is being asked for: a new password, the same once more, or the one
/// with the given hash, in so many attempts.
pub enum Asking {
    New,
    Confirm(Vec<u8>),
    Existing(Vec<u8>, u32),
}

/// A password prompt: for which command, what it asks, and what has been
/// typed.
pub struct Dialogue {
    pub command: Vec<u8>,
    pub asking: Asking,
    pub line: Vec<u8>,
}

pub ghost enum AskingV {
    New,
    Confirm(Seq<u8>),
    Existing(Seq<u8>, int),
}

pub ghost struct DialogueV {
    pub command: Seq<u8>,
    pub asking: AskingV,
    pub line: Seq<u8>,
}

#[derive(Clone, Copy, PartialEq, Eq, Structural)]
pub enum Verdict {
    Granted,
    Denied,
    Waiting,
}

impl Asking {
    pub open spec fn view(self) -> AskingV {
        match self {
            Asking::New => AskingV::New,
            Asking::Confirm(first) => AskingV::Confirm(first@),
            Asking::Existing(stored, left) => AskingV::Existing(stored@, left as int),
        }
    }
}

impl Dialogue {
    pub open spec fn view(self) -> DialogueV {
        DialogueV { command: self.command@, asking: self.asking@, line: self.line@ }
    }
}

/// Whether a byte is a printing ASCII character or a space.
pub open spec fn printing(b: u8) -> bool {
    0x20 <= b <= 0x7E
}

/// The line after a key that does not end it, and what appears on the screen:
/// a star for each character.
pub open spec fn edited(line: Seq<u8>, key: u8) -> (Seq<u8>, Seq<u8>) {
    if key == 0x08 {
        if line.len() > 0 {
            (line.drop_last(), seq![0x08u8])
        } else {
            (line, Seq::empty())
        }
    } else if printing(key) && line.len() < MAX_PASSWORD_LEN {
        (line.push(key), seq![0x2Au8])
    } else {
        (line, Seq::empty())
    }
}

/// The prompt for an existing password.
pub open spec fn password_prompt(command: Seq<u8>) -> Seq<u8> {
    "[apex] password for '".spec_bytes() + command + "': ".spec_bytes()
}

/// What is said when no password has been set yet.
pub open spec fn setup_prompt(command: Seq<u8>) -> Seq<u8> {
    "[apex] no password set yet -- this is a one-time setup, needed to run '".spec_bytes() + command
        + "'.\nNew apex password: ".spec_bytes()
}

/// What the hash of a password looks like on the volume.
pub open spec fn hashed(password: Seq<u8>) -> Seq<u8> {
    hex_bytes(sha256(password))
}

/// What follows a line that has been typed: the dialogue, what is said, the
/// verdict and the disk.
pub open spec fn answered(d: DialogueV, v: Volume, at: Place) -> (DialogueV, Seq<u8>, Verdict, Image) {
    let next = DialogueV { line: Seq::empty(), ..d };
    match d.asking {
        AskingV::New => (
            DialogueV { asking: AskingV::Confirm(d.line), ..next },
            "\nConfirm password: ".spec_bytes(),
            Verdict::Waiting,
            v.image,
        ),
        AskingV::Confirm(first) => if first.len() == 0 {
            (next, "\napex: empty password not allowed, nothing saved.\n".spec_bytes(), Verdict::Denied, v.image)
        } else if first != d.line {
            (next, "\napex: passwords didn't match, nothing saved.\n".spec_bytes(), Verdict::Denied, v.image)
        } else {
            match kept(v, at, PASSWORD_PATH.spec_bytes(), hashed(first)) {
                (image, Ok(_)) => (next, "\napex password set.\n".spec_bytes(), Verdict::Granted, image),
                (image, Err(e)) => (
                    next,
                    "\napex: failed to save password: ".spec_bytes() + e.spec_bytes() + "\n".spec_bytes(),
                    Verdict::Denied,
                    image,
                ),
            }
        },
        AskingV::Existing(stored, left) => if hashed(d.line) == stored {
            (next, "\n".spec_bytes(), Verdict::Granted, v.image)
        } else if left <= 1 {
            (
                next,
                "\nSorry, try again.\napex: too many failed attempts.\n".spec_bytes(),
                Verdict::Denied,
                v.image,
            )
        } else {
            (
                DialogueV { asking: AskingV::Existing(stored, left - 1), ..next },
                "\nSorry, try again.\n".spec_bytes() + password_prompt(d.command),
                Verdict::Waiting,
                v.image,
            )
        },
    }
}

/// What follows a key: the dialogue, what is said, the verdict and the disk.
pub open spec fn keyed(d: DialogueV, key: u8, v: Volume, at: Place) -> (DialogueV, Seq<u8>, Verdict, Image) {
    if key == 0x0A {
        answered(d, v, at)
    } else {
        let (line, echo) = edited(d.line, key);
        (DialogueV { line, ..d }, echo, Verdict::Waiting, v.image)
    }
}

/// What is remembered after a verdict at tick `now`: a success, and nothing
/// else changes it.
pub open spec fn noted(apex: Apex, verdict: Verdict, now: u64) -> Apex {
    if verdict == Verdict::Granted {
        Apex { authenticated_until: (now + CACHE_TICKS) as u64 }
    } else {
        apex
    }
}

/// How a request begins: what is said, whether it is decided, and what is
/// asked otherwise.
pub open spec fn requested(remembered: bool, v: Volume, at: Place) -> (Verdict, Option<AskingV>, Option<&'static str>) {
    if remembered {
        (Verdict::Granted, None, None)
    } else {
        match stored_hash(v, at) {
            Ok(Some(h)) => (Verdict::Waiting, Some(AskingV::Existing(h, MAX_ATTEMPTS as int)), None),
            Ok(None) => (Verdict::Waiting, Some(AskingV::New), None),
            Err(e) => (Verdict::Denied, None, Some(e)),
        }
    }
}

/// What is said at the beginning.
pub open spec fn opening(command: Seq<u8>, asking: Option<AskingV>, error: Option<&'static str>) -> Seq<u8> {
    match (asking, error) {
        (Some(AskingV::Existing(h, n)), _) => password_prompt(command),
        (Some(_), _) => setup_prompt(command),
        (None, Some(e)) => "apex: error reading password file: ".spec_bytes() + e.spec_bytes() + "\n".spec_bytes(),
        (None, None) => Seq::empty(),
    }
}

fn push_prompt(out: &mut Vec<u8>, command: &[u8])
    ensures
        final(out)@ == old(out)@ + password_prompt(command@),
{
    let ghost before = out@;
    push_str(out, "[apex] password for '");
    push_bytes(out, command);
    push_str(out, "': ");
    assert(out@ =~= before + password_prompt(command@));
}

/// Asks whether `command` may run: what to say, the verdict, and while it is
/// open the dialogue that leads to it.
pub fn authenticate(apex: &Apex, fs: &mut Fs, now: u64, command: &[u8]) -> (r: (Vec<u8>, Verdict, Option<Dialogue>))
    requires
        old(fs).wf(),
    ensures
        final(fs).wf(),
        final(fs).only_read(*old(fs)),
        apex.remembers(now) ==> *final(fs) == *old(fs),
        ({
            let (verdict, asking, error) = requested(apex.remembers(now), old(fs).volume(), old(fs).place());
            &&& r.0@ == opening(command@, asking, error)
            &&& r.1 == verdict
            &&& match asking {
                Some(a) => r.2 matches Some(d) && d@ == (DialogueV {
                    command: command@,
                    asking: a,
                    line: Seq::empty(),
                }),
                None => r.2 is None,
            }
        }),
{
    let mut out: Vec<u8> = Vec::new();
    assert(out@ =~= Seq::empty());
    if is_authenticated(apex, now) {
        return (out, Verdict::Granted, None);
    }
    let line: Vec<u8> = Vec::new();
    assert(line@ =~= Seq::empty());
    match load_stored_hash(fs) {
        Ok(Some(hash)) => {
            push_prompt(&mut out, command);
            assert(out@ =~= password_prompt(command@));
            let d = Dialogue { command: slice_to_vec(command), asking: Asking::Existing(hash, MAX_ATTEMPTS), line };
            (out, Verdict::Waiting, Some(d))
        },
        Ok(None) => {
            let mut out = text_of("[apex] no password set yet -- this is a one-time setup, needed to run '");
            push_bytes(&mut out, command);
            push_str(&mut out, "'.\nNew apex password: ");
            let d = Dialogue { command: slice_to_vec(command), asking: Asking::New, line };
            (out, Verdict::Waiting, Some(d))
        },
        Err(e) => {
            let mut out = text_of("apex: error reading password file: ");
            push_str(&mut out, e);
            push_str(&mut out, "\n");
            (out, Verdict::Denied, None)
        },
    }
}

/// Saves the hash of a new password.
fn save_hash(fs: &mut Fs, password: &[u8]) -> (r: Result<(), &'static str>)
    requires
        old(fs).wf(),
    ensures
        final(fs).wf(),
        final(fs).only_disk(*old(fs)),
        (final(fs).disk@, r) == kept(
            old(fs).volume(),
            old(fs).place(),
            PASSWORD_PATH.spec_bytes(),
            hashed(password@),
        ),
{
    let path = text_of(PASSWORD_PATH);
    let hash = sha256_hex(password);
    keep_file(fs, path.as_slice(), hash.as_slice())
}

impl Dialogue {
    /// Takes a whole line.
    fn take_line(&mut self, apex: &mut Apex, fs: &mut Fs, now: u64) -> (r: (Vec<u8>, Verdict))
        requires
            old(fs).wf(),
            now <= u64::MAX - CACHE_TICKS,
        ensures
            final(fs).wf(),
            final(fs).only_disk(*old(fs)),
            ({
                let (d, text, verdict, image) = answered(old(self)@, old(fs).volume(), old(fs).place());
                &&& final(self)@ == d
                &&& r.0@ == text
                &&& r.1 == verdict
                &&& final(fs).disk@ == image
                &&& *final(apex) == noted(*old(apex), verdict, now)
            }),
    {
        let typed = slice_to_vec(self.line.as_slice());
        self.line = Vec::new();
        assert(self.line@ =~= Seq::empty());
        match &mut self.asking {
            Asking::New => {
                self.asking = Asking::Confirm(typed);
                (text_of("\nConfirm password: "), Verdict::Waiting)
            },
            Asking::Confirm(first) => {
                if first.len() == 0 {
                    return (text_of("\napex: empty password not allowed, nothing saved.\n"), Verdict::Denied);
                }
                if !same_bytes(first.as_slice(), typed.as_slice()) {
                    return (text_of("\napex: passwords didn't match, nothing saved.\n"), Verdict::Denied);
                }
                match save_hash(fs, first.as_slice()) {
                    Ok(_) => {
                        apex.cache_success(now);
                        (text_of("\napex password set.\n"), Verdict::Granted)
                    },
                    Err(e) => {
                        let mut out = text_of("\napex: failed to save password: ");
                        push_str(&mut out, e);
                        push_str(&mut out, "\n");
                        (out, Verdict::Denied)
                    },
                }
            },
            Asking::Existing(stored, left) => {
                let hash = sha256_hex(typed.as_slice());
                if same_bytes(hash.as_slice(), stored.as_slice()) {
                    apex.cache_success(now);
                    return (text_of("\n"), Verdict::Granted);
                }
                if *left <= 1 {
                    return (
                        text_of("\nSorry, try again.\napex: too many failed attempts.\n"),
                        Verdict::Denied,
                    );
                }
                *left = *left - 1;
                let mut out = text_of("\nSorry, try again.\n");
                push_prompt(&mut out, self.command.as_slice());
                (out, Verdict::Waiting)
            },
        }
    }

    /// Takes a key: what to show, and the verdict. A success is remembered
    /// from tick `now` on.
    pub fn take_key(&mut self, key: u8, apex: &mut Apex, fs: &mut Fs, now: u64) -> (r: (Vec<u8>, Verdict))
        requires
            old(fs).wf(),
            now <= u64::MAX - CACHE_TICKS,
        ensures
            final(fs).wf(),
            final(fs).only_disk(*old(fs)),
            ({
                let (d, text, verdict, image) = keyed(old(self)@, key, old(fs).volume(), old(fs).place());
                &&& final(self)@ == d
                &&& r.0@ == text
                &&& r.1 == verdict
                &&& final(fs).disk@ == image
                &&& *final(apex) == noted(*old(apex), verdict, now)
            }),
    {
        if key == 0x0A {
            return self.take_line(apex, fs, now);
        }
        let mut out: Vec<u8> = Vec::new();
        if key == 0x08 {
            if self.line.len() > 0 {
                self.line.pop();
                out.push(0x08);
            }
        } else if key >= 0x20 && key <= 0x7E && self.line.len() < MAX_PASSWORD_LEN {
            self.line.push(key);
            out.push(0x2A);
        }
        assert(out@ =~= edited(old(self)@.line, key).1);
        (out, Verdict::Waiting)
    }
}


// ---- What the lock promises ----

/// Only the right password opens the lock, or a new one that was typed twice.
pub proof fn law_only_a_password_opens(d: DialogueV, key: u8, v: Volume, at: Place)
    requires
        keyed(d, key, v, at).2 == Verdict::Granted,
    ensures
        key == 0x0A,
        match d.asking {
            AskingV::New => false,
            AskingV::Confirm(first) => d.line == first && first.len() > 0,
            AskingV::Existing(stored, left) => hashed(d.line) == stored,
        },
{
}

/// Three wrong passwords in a row close the lock, and none before the third.
pub proof fn law_three_attempts(
    command: Seq<u8>,
    stored: Seq<u8>,
    first: Seq<u8>,
    second: Seq<u8>,
    third: Seq<u8>,
    v: Volume,
    at: Place,
)
    requires
        hashed(first) != stored,
        hashed(second) != stored,
        hashed(third) != stored,
    ensures
        ({
            let d1 = DialogueV { command, asking: AskingV::Existing(stored, MAX_ATTEMPTS as int), line: first };
            let a1 = answered(d1, v, at);
            let a2 = answered(DialogueV { line: second, ..a1.0 }, v, at);
            let a3 = answered(DialogueV { line: third, ..a2.0 }, v, at);
            a1.2 == Verdict::Waiting && a2.2 == Verdict::Waiting && a3.2 == Verdict::Denied
        }),
{
}

proof fn lemma_hex_bytes(b: Seq<u8>)
    ensures
        hex_bytes(b).len() == 2 * b.len(),
        forall|i: int|
            0 <= i < hex_bytes(b).len() ==> 0x30 <= (#[trigger] hex_bytes(b)[i]) < 0x80,
    decreases b.len(),
{
    if b.len() > 0 {
        lemma_hex_bytes(b.drop_last());
    }
}

proof fn lemma_ascii_is_text(b: Seq<u8>)
    requires
        forall|i: int| 0 <= i < b.len() ==> (#[trigger] b[i]) < 0x80,
    ensures
        valid_utf8(b),
{
    assert(b.subrange(0, 0) =~= Seq::empty());
    assert forall|i: int| 0 <= i < b.len() implies #[trigger] is_leading_byte_width_1(b[i]) by {
        let c = b[i];
        assert(c < 0x80 ==> c & 0x80 == 0) by (bit_vector);
    }
    partial_valid_utf8_extend_ascii_block(b, 0, b.len() as int);
    assert(b.subrange(0, b.len() as int) =~= b);
}

proof fn lemma_hash_reads_back(password: Seq<u8>)
    ensures
        valid_utf8(hashed(password)),
        trimmed(hashed(password)) == hashed(password),
        hashed(password).len() <= 0xFFFF_FFFF,
{
    let h = hashed(password);
    lemma_hex_bytes(sha256(password));
    lemma_sha256_len(password);
    lemma_ascii_is_text(h);
}

proof fn lemma_password_path()
    ensures
        ({
            let path = PASSWORD_PATH.spec_bytes();
            &&& path == "/APEX.PWD".spec_bytes()
            &&& parent_and_name(path) == (seq![0x2Fu8], "APEX.PWD".spec_bytes())
            &&& components(seq![0x2Fu8]).len() == 0
            &&& storable("APEX.PWD".spec_bytes())
        }),
{
    reveal_strlit("/APEX.PWD");
    is_ascii_spec_bytes("/APEX.PWD");
    reveal_strlit("APEX.PWD");
    is_ascii_spec_bytes("APEX.PWD");
    let path = PASSWORD_PATH.spec_bytes();
    let name = "APEX.PWD".spec_bytes();
    assert(path =~= seq![0x2Fu8, 0x41, 0x50, 0x45, 0x58, 0x2E, 0x50, 0x57, 0x44]);
    assert(name =~= seq![0x41u8, 0x50, 0x45, 0x58, 0x2E, 0x50, 0x57, 0x44]);
    reveal_with_fuel(last_index, 10);
    reveal_with_fuel(components, 3);
    assert(last_index(path, 0x2F) == Some(0int));
    assert(path.skip(1) =~= name);
    assert(last_index(name, 0x2E) == Some(4int));
    law_plain_names_are_storable(name);
}

/// A password that has been set is the one that opens the lock from then on:
/// its hash is what the volume holds, from whichever directory it is read.
pub proof fn law_password_round_trip(d: Image, l: Layout, at: Place, password: Seq<u8>, command: Seq<u8>, left: int)
    requires
        image_ok(d),
        proper(l),
        links_ok(d, l),
        sound_dir(d, l, DirLocation::Root),
        slot_clear(d, l, DirLocation::Root, "APEX.PWD".spec_bytes()),
        password.len() > 0,
        answered(
            (DialogueV { command, asking: AskingV::Confirm(password), line: password }),
            (Volume { image: d, layout: Some(l) }),
            at,
        ).2 == Verdict::Granted,
    ensures
        ({
            let set = answered(
                (DialogueV { command, asking: AskingV::Confirm(password), line: password }),
                (Volume { image: d, layout: Some(l) }),
                at,
            );
            let v = Volume { image: set.3, layout: Some(l) };
            &&& stored_hash(v, at) == Ok::<Option<Seq<u8>>, &'static str>(Some(hashed(password)))
            &&& answered(
                (DialogueV { command, asking: AskingV::Existing(hashed(password), left), line: password }),
                v,
                at,
            ).2 == Verdict::Granted
        }),
{
    lemma_password_path();
    lemma_hash_reads_back(password);
    let path = PASSWORD_PATH.spec_bytes();
    let v = Volume { image: d, layout: Some(l) };
    law_write_then_read(d, l, at, path, hashed(password));
}

/// A success is remembered for five minutes, and no longer.
pub proof fn law_success_is_remembered(apex: Apex, granted: u64, now: u64)
    requires
        granted <= u64::MAX - CACHE_TICKS,
        apex.authenticated_until == granted + CACHE_TICKS,
    ensures
        apex.remembers(now) == (now < granted + 300 * HZ),
{
}

/// What is remembered after some verdicts since the start, each with its tick.
pub open spec fn apex_after(history: Seq<(Verdict, u64)>) -> Apex
    decreases history.len(),
{
    if history.len() == 0 {
        Apex { authenticated_until: 0 }
    } else {
        noted(apex_after(history.drop_last()), history.last().0, history.last().1)
    }
}

/// The tick of the last success.
pub open spec fn last_success(history: Seq<(Verdict, u64)>) -> Option<u64>
    decreases history.len(),
{
    if history.len() == 0 {
        None
    } else if history.last().0 == Verdict::Granted {
        Some(history.last().1)
    } else {
        last_success(history.drop_last())
    }
}

/// Whatever has been typed since the start, a command may run without a
/// password exactly if there was a success, and the last one was less than
/// five minutes ago. What failed or was left open since does not count.
pub proof fn law_unlock_window(history: Seq<(Verdict, u64)>, now: u64)
    requires
        forall|i: int| 0 <= i < history.len() ==> (#[trigger] history[i]).1 <= u64::MAX - CACHE_TICKS,
    ensures
        apex_after(history).remembers(now) == match last_success(history) {
            Some(t) => now < t + 300 * HZ,
            None => false,
        },
    decreases history.len(),
{
    if history.len() > 0 {
        let before = history.drop_last();
        assert forall|i: int| 0 <= i < before.len() implies (#[trigger] before[i]).1 <= u64::MAX - CACHE_TICKS by {
            assert(before[i] == history[i]);
        }
        assert(history[history.len() - 1].1 <= u64::MAX - CACHE_TICKS);
        law_unlock_window(before, now);
    }
}

} // verus!
