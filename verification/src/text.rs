//! Text as bytes: building it from literals and numbers, padding it, cutting
//! it up and reading numbers out of it.
use vstd::prelude::*;
use vstd::slice::{slice_subrange, slice_to_vec};
use vstd::string::*;
use vstd::utf8::valid_utf8;

verus! {

/// The decimal digits of a number.
pub open spec fn decimal(n: nat) -> Seq<u8>
    decreases n,
{
    if n < 10 {
        seq![(0x30 + n) as u8]
    } else {
        decimal(n / 10).push((0x30 + n % 10) as u8)
    }
}

/// A hexadecimal digit, in lower case.
pub open spec fn hex_digit(d: nat) -> u8 {
    if d < 10 {
        (0x30 + d) as u8
    } else {
        (0x57 + d) as u8
    }
}

/// The hexadecimal digits of a number.
pub open spec fn hex(n: nat) -> Seq<u8>
    decreases n,
{
    if n < 16 {
        seq![hex_digit(n)]
    } else {
        hex(n / 16).push(hex_digit(n % 16))
    }
}

/// `text` filled up with spaces on the right to `width` bytes.
pub open spec fn padded(text: Seq<u8>, width: nat) -> Seq<u8>
    decreases width,
{
    if text.len() >= width {
        text
    } else {
        padded(text, (width - 1) as nat).push(0x20)
    }
}

pub open spec fn spaces(n: nat) -> Seq<u8> {
    Seq::new(n, |i: int| 0x20u8)
}

/// `text` filled up with spaces on the left to `width` bytes.
pub open spec fn indented(text: Seq<u8>, width: nat) -> Seq<u8> {
    if text.len() >= width {
        text
    } else {
        spaces((width - text.len()) as nat) + text
    }
}

pub fn push_bytes(out: &mut Vec<u8>, bytes: &[u8])
    ensures
        final(out)@ == old(out)@ + bytes@,
{
    let ghost before = out@;
    let n: usize = bytes.len();
    for i in 0..n
        invariant
            n == bytes@.len(),
            out@ == before + bytes@.take(i as int),
    {
        out.push(bytes[i]);
        assert(out@ =~= before + bytes@.take(i + 1));
    }
    assert(bytes@.take(n as int) =~= bytes@);
}

pub fn push_str(out: &mut Vec<u8>, s: &str)
    ensures
        final(out)@ == old(out)@ + s.spec_bytes(),
{
    push_bytes(out, s.as_bytes());
}

/// The bytes of a piece of text.
pub fn text_of(s: &str) -> (r: Vec<u8>)
    ensures
        r@ == s.spec_bytes(),
{
    slice_to_vec(s.as_bytes())
}

pub fn push_decimal(out: &mut Vec<u8>, n: u64)
    ensures
        final(out)@ == old(out)@ + decimal(n as nat),
    decreases n,
{
    let ghost before = out@;
    if n >= 10 {
        push_decimal(out, n / 10);
    }
    let digit: u8 = (0x30 + n % 10) as u8;
    out.push(digit);
    assert(out@ =~= before + decimal(n as nat));
}

pub fn push_hex(out: &mut Vec<u8>, n: u64)
    ensures
        final(out)@ == old(out)@ + hex(n as nat),
    decreases n,
{
    let ghost before = out@;
    if n >= 16 {
        push_hex(out, n / 16);
    }
    let d: u64 = n % 16;
    if d < 10 {
        out.push((0x30 + d) as u8);
    } else {
        out.push((0x57 + d) as u8);
    }
    assert(out@ =~= before + hex(n as nat));
}

/// Appends text filled up with spaces on the right to `width` bytes.
pub fn push_padded(out: &mut Vec<u8>, text: &[u8], width: usize)
    ensures
        final(out)@ == old(out)@ + padded(text@, width as nat),
{
    let ghost before = out@;
    push_bytes(out, text);
    let mut n: usize = text.len();
    assert(padded(text@, n as nat) == text@);
    while n < width
        invariant
            text@.len() <= n,
            n <= width || n == text@.len(),
            out@ == before + padded(text@, n as nat),
        decreases width - n,
    {
        out.push(0x20);
        n += 1;
        assert(out@ =~= before + padded(text@, n as nat));
    }
}

/// Appends text filled up with spaces on the left to `width` bytes.
pub fn push_indented(out: &mut Vec<u8>, text: &[u8], width: usize)
    ensures
        final(out)@ == old(out)@ + indented(text@, width as nat),
{
    let ghost before = out@;
    let mut n: usize = text.len();
    let ghost start: nat = text@.len();
    while n < width
        invariant
            start == text@.len(),
            start <= n,
            n <= width || n == start,
            out@ == before + spaces((n - start) as nat),
        decreases width - n,
    {
        out.push(0x20);
        n += 1;
        assert(out@ =~= before + spaces((n - start) as nat));
    }
    let ghost filled = out@;
    push_bytes(out, text);
    assert(out@ =~= before + indented(text@, width as nat));
}

/// `b` as a string slice: the standard library's `core::str::from_utf8` gives
/// one with the same bytes exactly where they are valid UTF-8.
#[verifier::external_body]
pub(crate) fn str_of(b: &[u8]) -> (r: Option<&str>)
    ensures
        r is Some == valid_utf8(b@),
        r matches Some(s) ==> s.spec_bytes() == b@,
{
    core::str::from_utf8(b).ok()
}

/// Whether `b` is text.
pub(crate) fn is_utf8(b: &[u8]) -> (r: bool)
    ensures
        r == valid_utf8(b@),
{
    str_of(b).is_some()
}

/// Whether two runs of bytes are the same.
pub(crate) fn same_bytes(a: &[u8], b: &[u8]) -> (r: bool)
    ensures
        r == (a@ == b@),
{
    if a.len() != b.len() {
        return false;
    }
    let n: usize = a.len();
    for i in 0..n
        invariant
            n == a@.len(),
            n == b@.len(),
            forall|k: int| 0 <= k < i ==> a@[k] == b@[k],
    {
        if a[i] != b[i] {
            return false;
        }
    }
    assert(a@ =~= b@);
    true
}

// ---- Cutting up ----

/// ASCII white space: tab to carriage return, and the space.
pub open spec fn is_space(b: u8) -> bool {
    b == 0x20 || 0x09 <= b <= 0x0D
}

/// White space of two bytes: the next-line character and the no-break space.
pub open spec fn is_space_2(a: u8, b: u8) -> bool {
    a == 0xC2 && (b == 0x85 || b == 0xA0)
}

/// White space of three bytes: the Ogham space, the typographic spaces, the
/// line and paragraph separators, and the ideographic space.
pub open spec fn is_space_3(a: u8, b: u8, c: u8) -> bool {
    ||| a == 0xE1 && b == 0x9A && c == 0x80
    ||| a == 0xE2 && b == 0x80 && (0x80 <= c <= 0x8A || c == 0xA8 || c == 0xA9 || c == 0xAF)
    ||| a == 0xE2 && b == 0x81 && c == 0x9F
    ||| a == 0xE3 && b == 0x80 && c == 0x80
}

/// How many bytes the white space that a text begins with has; none if it
/// begins with something else.
pub open spec fn space_at_start(t: Seq<u8>) -> int {
    if t.len() >= 1 && is_space(t[0]) {
        1
    } else if t.len() >= 2 && is_space_2(t[0], t[1]) {
        2
    } else if t.len() >= 3 && is_space_3(t[0], t[1], t[2]) {
        3
    } else {
        0
    }
}

/// How many bytes the white space that a text ends with has.
pub open spec fn space_at_end(t: Seq<u8>) -> int {
    let n = t.len() as int;
    if n >= 1 && is_space(t[n - 1]) {
        1
    } else if n >= 2 && is_space_2(t[n - 2], t[n - 1]) {
        2
    } else if n >= 3 && is_space_3(t[n - 3], t[n - 2], t[n - 1]) {
        3
    } else {
        0
    }
}

fn space_3(a: u8, b: u8, c: u8) -> (r: bool)
    ensures
        r == is_space_3(a, b, c),
{
    (a == 0xE1 && b == 0x9A && c == 0x80) || (a == 0xE2 && b == 0x80 && ((0x80 <= c && c <= 0x8A) || c == 0xA8 || c
        == 0xA9 || c == 0xAF)) || (a == 0xE2 && b == 0x81 && c == 0x9F) || (a == 0xE3 && b == 0x80 && c == 0x80)
}

/// The length of the white space at `i`.
fn space_from(t: &[u8], i: usize) -> (r: usize)
    requires
        i <= t@.len(),
    ensures
        r == space_at_start(t@.skip(i as int)),
        i + r <= t@.len(),
{
    let n: usize = t.len() - i;
    if n >= 1 && (t[i] == 0x20 || (0x09 <= t[i] && t[i] <= 0x0D)) {
        1
    } else if n >= 2 && t[i] == 0xC2 && (t[i + 1] == 0x85 || t[i + 1] == 0xA0) {
        2
    } else if n >= 3 && space_3(t[i], t[i + 1], t[i + 2]) {
        3
    } else {
        0
    }
}

/// The length of the white space before `n`.
fn space_until(t: &[u8], n: usize) -> (r: usize)
    requires
        n <= t@.len(),
    ensures
        r == space_at_end(t@.take(n as int)),
        r <= n,
{
    if n >= 1 && (t[n - 1] == 0x20 || (0x09 <= t[n - 1] && t[n - 1] <= 0x0D)) {
        1
    } else if n >= 2 && t[n - 2] == 0xC2 && (t[n - 1] == 0x85 || t[n - 1] == 0xA0) {
        2
    } else if n >= 3 && space_3(t[n - 3], t[n - 2], t[n - 1]) {
        3
    } else {
        0
    }
}

/// Text without the white space before it.
pub open spec fn trimmed_start(t: Seq<u8>) -> Seq<u8>
    decreases t.len(),
{
    if space_at_start(t) > 0 {
        trimmed_start(t.skip(space_at_start(t)))
    } else {
        t
    }
}

/// Text without the white space behind it.
pub open spec fn trimmed_end(t: Seq<u8>) -> Seq<u8>
    decreases t.len(),
{
    if space_at_end(t) > 0 {
        trimmed_end(t.take(t.len() - space_at_end(t)))
    } else {
        t
    }
}

pub open spec fn trimmed(t: Seq<u8>) -> Seq<u8> {
    trimmed_end(trimmed_start(t))
}

pub fn trim_start(t: &[u8]) -> (r: Vec<u8>)
    ensures
        r@ == trimmed_start(t@),
{
    let n: usize = t.len();
    let mut i: usize = 0;
    assert(t@.skip(0) =~= t@);
    let mut step: usize = space_from(t, i);
    while step > 0
        invariant
            n == t@.len(),
            i + step <= n,
            step == space_at_start(t@.skip(i as int)),
            trimmed_start(t@) == trimmed_start(t@.skip(i as int)),
        decreases n - i,
    {
        assert(t@.skip(i as int).skip(step as int) =~= t@.skip(i + step));
        i += step;
        step = space_from(t, i);
    }
    assert(t@.skip(i as int) =~= t@.subrange(i as int, n as int));
    slice_to_vec(slice_subrange(t, i, n))
}

pub fn trim_end(t: &[u8]) -> (r: Vec<u8>)
    ensures
        r@ == trimmed_end(t@),
{
    let mut n: usize = t.len();
    assert(t@.take(n as int) =~= t@);
    let mut step: usize = space_until(t, n);
    while step > 0
        invariant
            step <= n <= t@.len(),
            step == space_at_end(t@.take(n as int)),
            trimmed_end(t@) == trimmed_end(t@.take(n as int)),
        decreases n,
    {
        assert(t@.take(n as int).take(n - step) =~= t@.take(n - step));
        n -= step;
        step = space_until(t, n);
    }
    assert(t@.take(n as int) =~= t@.subrange(0, n as int));
    slice_to_vec(slice_subrange(t, 0, n))
}

pub fn trim(t: &[u8]) -> (r: Vec<u8>)
    ensures
        r@ == trimmed(t@),
{
    let s = trim_start(t);
    trim_end(s.as_slice())
}

/// Where the first `b` stands, from `from` on.
pub open spec fn first_of(t: Seq<u8>, b: u8, from: int) -> Option<int>
    decreases t.len() - from,
{
    if from >= t.len() {
        None
    } else if t[from] == b {
        Some(from)
    } else {
        first_of(t, b, from + 1)
    }
}

pub proof fn lemma_first_of(t: Seq<u8>, b: u8, from: int)
    requires
        0 <= from <= t.len(),
    ensures
        first_of(t, b, from) matches Some(i) ==> from <= i < t.len() && t[i] == b && forall|j: int|
            from <= j < i ==> t[j] != b,
        first_of(t, b, from) is None ==> forall|j: int| from <= j < t.len() ==> t[j] != b,
    decreases t.len() - from,
{
    if from < t.len() && t[from] != b {
        lemma_first_of(t, b, from + 1);
    }
}

/// Text before and behind the first `b`.
pub open spec fn split_at_first(t: Seq<u8>, b: u8) -> Option<(Seq<u8>, Seq<u8>)> {
    match first_of(t, b, 0) {
        Some(i) => Some((t.take(i), t.skip(i + 1))),
        None => None,
    }
}

pub fn split_once(t: &[u8], b: u8) -> (r: Option<(Vec<u8>, Vec<u8>)>)
    ensures
        match split_at_first(t@, b) {
            Some((x, y)) => r matches Some((u, v)) && u@ == x && v@ == y,
            None => r is None,
        },
{
    let n: usize = t.len();
    for i in 0..n
        invariant
            n == t@.len(),
            first_of(t@, b, 0) == first_of(t@, b, i as int),
    {
        if t[i] == b {
            assert(t@.take(i as int) =~= t@.subrange(0, i as int));
            assert(t@.skip(i + 1) =~= t@.subrange(i + 1, n as int));
            return Some((slice_to_vec(slice_subrange(t, 0, i)), slice_to_vec(slice_subrange(t, i + 1, n))));
        }
    }
    None
}

/// How many bytes stand before the first white space.
pub open spec fn word_length(t: Seq<u8>) -> int
    decreases t.len(),
{
    if t.len() == 0 || space_at_start(t) > 0 {
        0
    } else {
        1 + word_length(t.drop_first())
    }
}

pub proof fn lemma_word_length(t: Seq<u8>)
    ensures
        0 <= word_length(t) <= t.len(),
    decreases t.len(),
{
    if t.len() > 0 {
        lemma_word_length(t.drop_first());
    }
}

/// The first word of a text, if it has one, and what comes behind it.
pub open spec fn first_word(t: Seq<u8>) -> Option<(Seq<u8>, Seq<u8>)> {
    let s = trimmed_start(t);
    if s.len() == 0 {
        None
    } else {
        Some((s.take(word_length(s)), s.skip(word_length(s))))
    }
}

pub fn next_word(t: &[u8]) -> (r: Option<(Vec<u8>, Vec<u8>)>)
    ensures
        match first_word(t@) {
            Some((x, y)) => r matches Some((u, v)) && u@ == x && v@ == y,
            None => r is None,
        },
{
    let s = trim_start(t);
    let n: usize = s.len();
    if n == 0 {
        return None;
    }
    let mut i: usize = 0;
    assert(s@.skip(0) =~= s@);
    while i < n && space_from(s.as_slice(), i) == 0
        invariant
            n == s@.len(),
            i <= n,
            word_length(s@) == i + word_length(s@.skip(i as int)),
        decreases n - i,
    {
        assert(s@.skip(i as int).drop_first() =~= s@.skip(i + 1));
        i += 1;
    }
    assert(word_length(s@.skip(i as int)) == 0);
    assert(s@.take(i as int) =~= s@.subrange(0, i as int));
    assert(s@.skip(i as int) =~= s@.subrange(i as int, n as int));
    Some(
        (
            slice_to_vec(slice_subrange(s.as_slice(), 0, i)),
            slice_to_vec(slice_subrange(s.as_slice(), i, n)),
        ),
    )
}

// ---- Numbers ----

/// The number that a run of decimal digits stands for.
pub open spec fn digits_value(t: Seq<u8>) -> Option<nat>
    decreases t.len(),
{
    if t.len() == 0 {
        Some(0)
    } else {
        match digits_value(t.drop_last()) {
            Some(n) if 0x30 <= t.last() <= 0x39 => Some(10 * n + (t.last() - 0x30) as nat),
            _ => None,
        }
    }
}

/// The number that a text stands for: decimal digits, with or without a plus
/// before them, and no more than `max`.
pub open spec fn number(t: Seq<u8>, max: nat) -> Option<nat> {
    let digits = if t.len() > 0 && t[0] == 0x2B {
        t.drop_first()
    } else {
        t
    };
    match digits_value(digits) {
        Some(n) if digits.len() > 0 && n <= max => Some(n),
        _ => None,
    }
}

pub(crate) proof fn lemma_digits_grow(t: Seq<u8>, i: int)
    requires
        0 <= i <= t.len(),
    ensures
        digits_value(t.take(i)) is None ==> digits_value(t) is None,
        digits_value(t) matches Some(n) ==> digits_value(t.take(i)) matches Some(m) && m <= n,
    decreases t.len(),
{
    if i < t.len() {
        lemma_digits_grow(t.drop_last(), i);
        assert(t.drop_last().take(i) =~= t.take(i));
    } else {
        assert(t.take(i) =~= t);
    }
}

pub fn parse_number(t: &[u8], max: u64) -> (r: Option<u64>)
    ensures
        match number(t@, max as nat) {
            Some(n) => r matches Some(x) && x == n,
            None => r is None,
        },
{
    let n: usize = t.len();
    let start: usize = if n > 0 && t[0] == 0x2B {
        1
    } else {
        0
    };
    let ghost digits = if t@.len() > 0 && t@[0] == 0x2B {
        t@.drop_first()
    } else {
        t@
    };
    assert(digits =~= t@.skip(start as int));
    if start >= n {
        return None;
    }
    let mut value: u64 = 0;
    let mut i: usize = start;
    assert(digits.take(0) =~= Seq::empty());
    while i < n
        invariant
            n == t@.len(),
            start <= i <= n,
            start < n,
            digits == t@.skip(start as int),
            number(t@, max as nat) == match digits_value(digits) {
                Some(x) if x <= max => Some(x),
                _ => None,
            },
            value <= max,
            digits_value(digits.take(i - start)) == Some(value as nat),
        decreases n - i,
    {
        let b: u8 = t[i];
        proof {
            assert(digits.take(i - start + 1).drop_last() =~= digits.take(i - start));
            assert(digits.take(i - start + 1).last() == b);
            lemma_digits_grow(digits, i - start + 1);
        }
        if b < 0x30 || b > 0x39 {
            return None;
        }
        let wide: u128 = 10 * (value as u128) + (b - 0x30) as u128;
        if wide > max as u128 {
            return None;
        }
        value = wide as u64;
        i += 1;
    }
    assert(digits.take(n - start) =~= digits);
    Some(value)
}

/// What is printed can be read back.
pub proof fn law_decimal_round_trip(n: nat, max: nat)
    requires
        n <= max,
    ensures
        number(decimal(n), max) == Some(n),
{
    lemma_decimal_value(n);
}

pub(crate) proof fn lemma_decimal_value(n: nat)
    ensures
        digits_value(decimal(n)) == Some(n),
        decimal(n).len() > 0,
        0x30 <= decimal(n)[0] <= 0x39,
    decreases n,
{
    if n < 10 {
        assert(decimal(n).drop_last() =~= Seq::empty());
        assert(digits_value(Seq::<u8>::empty()) == Some(0nat));
    } else {
        lemma_decimal_value(n / 10);
        assert(decimal(n).drop_last() =~= decimal(n / 10));
    }
}

} // verus!
