//! Long file names: a name that is cut into parts and stored in records
//! before the record of its file is the name that the file is listed under.
use crate::fat16_laws::{
    lemma_first_named, lemma_listed_grows, lemma_listing, lemma_not_done, listed_to, no_end, readable, record_at,
};
use crate::volume::{
    chars_numbered, chars_ordered, dir_sectors, first_named, found, image_ok, lfn_chars, listed_record, listing,
    long_text, record, same_name, text_until_nul, utf8, DirLocation, Entry, Image, Layout, Listing, Volume,
};
use vstd::prelude::*;
use vstd::utf8::{encode_scalar, encode_utf8};

verus! {

/// The 16-bit number at a place of a record, low byte first.
pub open spec fn word(rec: Seq<u8>, at: int) -> int {
    rec[at] + 256 * rec[at + 1]
}

/// Where the thirteen characters of a long-name record lie.
pub open spec fn character_places() -> Seq<int> {
    seq![1, 3, 5, 7, 9, 14, 16, 18, 20, 22, 24, 28, 30]
}

/// The number that stands for character `i` of a name: the character, a zero
/// right behind the last one, and 0xFFFF further on.
pub open spec fn stored_character(name: Seq<char>, i: int) -> int {
    if i < name.len() {
        name[i] as int
    } else if i == name.len() {
        0
    } else {
        0xFFFF
    }
}

/// Whether a record holds part `j` of a long name, counted from one: the low
/// five bits of its first byte say which, and its thirteen characters are
/// those of the name from place 13 * (j - 1) on.
pub open spec fn holds_part(rec: Seq<u8>, name: Seq<char>, j: int) -> bool {
    &&& rec.len() == 32
    &&& rec[11] == 0x0F
    &&& rec[0] % 32 == j
    &&& rec[0] != 0xE5
    &&& forall|n: int|
        0 <= n < 13 ==> word(rec, #[trigger] character_places()[n]) == stored_character(name, 13 * (j - 1) + n)
}

/// Whether a name can be stored as a long name: it has up to 255 characters,
/// each of which fits in 16 bits and none of which is a zero.
pub open spec fn long_name(name: Seq<char>) -> bool {
    &&& 0 < name.len() <= 255
    &&& forall|i: int| 0 <= i < name.len() ==> 0 < (#[trigger] name[i] as u32) < 0x1_0000
}

/// How many parts a name is cut into.
pub open spec fn part_count(name: Seq<char>) -> int {
    (name.len() + 12) as int / 13
}

/// What a record says of a file or a directory: bit 4 of its byte 11 is that
/// of a directory, the first cluster is at byte 26 and the size at byte 28.
pub open spec fn says_of(rec: Seq<u8>, e: Entry) -> bool {
    &&& e.is_dir == (rec[11] / 16 % 2 == 1)
    &&& e.cluster == word(rec, 26)
    &&& e.size == word(rec, 28) + 0x1_0000 * word(rec, 30)
}

/// Whether a record is that of a file or a directory: it is in use, is not one
/// of the two that lead from a directory to itself and to the one above, and
/// is no label of the volume.
pub open spec fn of_a_file(rec: Seq<u8>) -> bool {
    &&& rec.len() == 32
    &&& rec[0] != 0
    &&& rec[0] != 0xE5
    &&& rec[0] != 0x2E
    &&& rec[11] / 8 % 2 == 0
}

proof fn lemma_attributes(a: u8)
    by (bit_vector)
    ensures
        (a & 8 != 0) == (a / 8 % 2 == 1),
        (a & 16 != 0) == (a / 16 % 2 == 1),
        a & 0x1F == a % 32,
{
}

/// Text in one character.
proof fn lemma_scalar(c: u16)
    requires
        !(0xD800 <= c <= 0xDFFF),
    ensures
        utf8(c) == encode_scalar(c as u32),
{
    let s = c as u32;
    assert(0x80 <= s < 0x800 ==> (0xC0u8 | ((s >> 6) & 0x1F) as u8) == 0xC0 + s / 64) by (bit_vector);
    assert(0x800 <= s < 0x1_0000 ==> (0xE0u8 | ((s >> 12) & 0x0F) as u8) == 0xE0 + s / 4096) by (bit_vector);
    assert((0x80u8 | ((s >> 6) & 0x3F) as u8) == 0x80 + s / 64 % 64) by (bit_vector);
    assert((0x80u8 | (s & 0x3F) as u8) == 0x80 + s % 64) by (bit_vector);
    assert(s < 0x80 ==> (s & 0x7F) as u8 == s as u8) by (bit_vector);
    assert(utf8(c) =~= encode_scalar(s));
}

/// The characters of a name from place `from` on, a zero, and whatever is
/// behind it, are shown as the text of those characters.
proof fn lemma_shown(chars: Seq<u16>, name: Seq<char>)
    requires
        chars.len() >= name.len(),
        forall|i: int| 0 <= i < name.len() ==> #[trigger] chars[i] == name[i] as u32 && chars[i] != 0,
        chars.len() > name.len() ==> chars[name.len() as int] == 0,
    ensures
        text_until_nul(chars) == encode_utf8(name),
    decreases name.len(),
{
    if name.len() > 0 {
        assert(chars[0] == name[0] as u32);
        vstd::utf8::char_is_scalar(name[0]);
        let c = chars[0];
        assert(!(0xD800 <= c <= 0xDFFF));
        lemma_scalar(c);
        let rest = name.drop_first();
        assert forall|i: int| 0 <= i < rest.len() implies #[trigger] chars.drop_first()[i] == rest[i] as u32
            && chars.drop_first()[i] != 0 by {
            assert(chars[i + 1] == name[i + 1] as u32);
        }
        lemma_shown(chars.drop_first(), rest);
        assert(c as u32 == name[0] as u32);
    }
}

/// The characters of the only part with a number.
proof fn lemma_numbered(parts: Seq<(u8, Seq<u16>)>, k: int, i: int, n: int)
    requires
        0 <= n <= parts.len(),
        0 <= i < parts.len(),
        parts[i].0 == k,
        forall|j: int| 0 <= j < parts.len() && j != i ==> (#[trigger] parts[j]).0 != k,
    ensures
        chars_numbered(parts, k, n) == if i < n {
            parts[i].1
        } else {
            Seq::empty()
        },
    decreases n,
{
    if n > 0 {
        lemma_numbered(parts, k, i, n - 1);
        assert(Seq::<u16>::empty() + parts[i].1 =~= parts[i].1);
    }
}

proof fn lemma_unnumbered(parts: Seq<(u8, Seq<u16>)>, k: int, n: int)
    requires
        0 <= n <= parts.len(),
        forall|j: int| 0 <= j < parts.len() ==> (#[trigger] parts[j]).0 != k,
    ensures
        chars_numbered(parts, k, n) == Seq::<u16>::empty(),
    decreases n,
{
    if n > 0 {
        lemma_unnumbered(parts, k, n - 1);
    }
}

/// Whether some parts are those of a name, one for each number, in whatever
/// order.
pub open spec fn parts_of(parts: Seq<(u8, Seq<u16>)>, order: Seq<int>, name: Seq<char>) -> bool {
    &&& parts.len() == part_count(name)
    &&& in_some_order(order, part_count(name))
    &&& forall|i: int|
        0 <= i < parts.len() ==> (#[trigger] parts[i]).0 == order[i] && parts[i].1.len() == 13 && forall|n: int|
            0 <= n < 13 ==> #[trigger] parts[i].1[n] == stored_character(name, 13 * (order[i] - 1) + n)
}

/// The numbers from one to `k`, each once.
pub open spec fn in_some_order(order: Seq<int>, k: int) -> bool {
    &&& order.len() == k
    &&& order.no_duplicates()
    &&& forall|i: int| 0 <= i < k ==> 1 <= #[trigger] order[i] <= k
    &&& forall|j: int| 1 <= j <= k ==> #[trigger] order.contains(j)
}

/// Put in the order of their numbers, the parts of a name are its characters.
proof fn lemma_ordered(parts: Seq<(u8, Seq<u16>)>, order: Seq<int>, name: Seq<char>, k: int)
    requires
        parts_of(parts, order, name),
        0 <= k <= 32,
        name.len() <= 255,
    ensures
        ({
            let m = if k <= 1 {
                0
            } else if k - 1 <= part_count(name) {
                k - 1
            } else {
                part_count(name)
            };
            let chars = chars_ordered(parts, k);
            &&& chars.len() == 13 * m
            &&& forall|i: int| 0 <= i < chars.len() ==> #[trigger] chars[i] == stored_character(name, i)
        }),
    decreases k,
{
    if k > 0 {
        lemma_ordered(parts, order, name, k - 1);
        let j = k - 1;
        let n = parts.len() as int;
        if 1 <= j <= part_count(name) {
            assert(order.contains(j));
            let i = choose|i: int| 0 <= i < order.len() && order[i] == j;
            assert forall|x: int| 0 <= x < parts.len() && x != i implies (#[trigger] parts[x]).0 != j by {
                assert(order[x] != order[i]);
            }
            lemma_numbered(parts, j, i, n);
            let before = chars_ordered(parts, j);
            let chars = chars_ordered(parts, k);
            assert forall|x: int| 0 <= x < chars.len() implies #[trigger] chars[x] == stored_character(name, x) by {
                if x >= before.len() {
                    let y = x - 13 * (j - 1);
                    assert(parts[i].1[y] == stored_character(name, 13 * (order[i] - 1) + y));
                } else {
                    assert(before[x] == stored_character(name, x));
                }
            }
        } else {
            assert forall|x: int| 0 <= x < parts.len() implies (#[trigger] parts[x]).0 != j by {
                assert(1 <= order[x] <= part_count(name));
            }
            lemma_unnumbered(parts, j, n);
            assert(chars_ordered(parts, k) =~= chars_ordered(parts, j));
        }
    }
}

/// A long name is the characters of its parts in the order of their numbers,
/// up to the first zero, in whatever order the parts come.
pub proof fn law_long_name(parts: Seq<(u8, Seq<u16>)>, order: Seq<int>, name: Seq<char>)
    requires
        long_name(name),
        parts_of(parts, order, name),
    ensures
        long_text(parts) == encode_utf8(name),
{
    lemma_ordered(parts, order, name, 32);
    let chars = chars_ordered(parts, 32);
    assert forall|i: int| 0 <= i < name.len() implies #[trigger] chars[i] == name[i] as u32 && chars[i] != 0 by {
        assert(chars[i] == stored_character(name, i));
    }
    if chars.len() > name.len() {
        assert(chars[name.len() as int] == stored_character(name, name.len() as int));
    }
    lemma_shown(chars, name);
}

/// The thirteen characters of a record are where they are looked for.
proof fn lemma_part_read(rec: Seq<u8>, name: Seq<char>, j: int)
    requires
        holds_part(rec, name, j),
    ensures
        lfn_chars(rec).len() == 13,
        forall|n: int| 0 <= n < 13 ==> #[trigger] lfn_chars(rec)[n] == stored_character(name, 13 * (j - 1) + n),
        rec[0] & 0x1F == j,
{
    lemma_attributes(rec[0]);
    assert forall|n: int| 0 <= n < 13 implies #[trigger] lfn_chars(rec)[n] == stored_character(
        name,
        13 * (j - 1) + n,
    ) by {
        let at = character_places()[n];
        assert(word(rec, at) == stored_character(name, 13 * (j - 1) + n));
        assert(at == crate::volume::lfn_offset(n));
    }
}

/// The parts of a name among the records of a directory are gathered.
proof fn lemma_gathered(d: Image, dir: Seq<int>, p: int, order: Seq<int>, name: Seq<char>, n: int)
    requires
        0 <= p,
        0 <= n <= order.len(),
        in_some_order(order, part_count(name)),
        name.len() <= 255,
        listed_to(d, dir, p).parts.len() == 0,
        !listed_to(d, dir, p).done,
        forall|i: int| 0 <= i < n ==> holds_part(#[trigger] record_at(d, dir, p + i), name, order[i]),
    ensures
        ({
            let x = listed_to(d, dir, p + n);
            &&& !x.done
            &&& x.entries == listed_to(d, dir, p).entries
            &&& x.parts.len() == n
            &&& forall|i: int|
                0 <= i < n ==> (#[trigger] x.parts[i]).0 == order[i] && x.parts[i].1.len() == 13 && forall|m: int|
                    0 <= m < 13 ==> #[trigger] x.parts[i].1[m] == stored_character(name, 13 * (order[i] - 1) + m)
        }),
    decreases n,
{
    if n > 0 {
        lemma_gathered(d, dir, p, order, name, n - 1);
        let rec = record_at(d, dir, p + (n - 1));
        assert(holds_part(rec, name, order[n - 1]));
        lemma_part_read(rec, name, order[n - 1]);
    }
}

/// A record of a file or a directory ends the gathering of a name, and so
/// does the start of a directory.
proof fn lemma_starts_anew(d: Image, dir: Seq<int>, p: int)
    requires
        0 <= p,
        no_end(d, dir, p),
        p == 0 || of_a_file(record_at(d, dir, p - 1)),
    ensures
        listed_to(d, dir, p).parts.len() == 0,
        !listed_to(d, dir, p).done,
{
    lemma_not_done(d, dir, p);
    if p > 0 {
        lemma_attributes(record_at(d, dir, p - 1)[11]);
        assert(record_at(d, dir, p - 1)[0] != 0);
        assert(no_end(d, dir, p - 1));
        lemma_not_done(d, dir, p - 1);
    }
}

/// A file whose record comes right behind the parts of a long name is listed
/// under that name, with the size, the first cluster and the kind that its
/// record says.
pub proof fn law_long_names_are_listed(
    v: Volume,
    l: Layout,
    location: DirLocation,
    p: int,
    order: Seq<int>,
    name: Seq<char>,
)
    requires
        v.layout == Some(l),
        image_ok(v.image),
        readable(v.image, dir_sectors(v.image, l, location)),
        long_name(name),
        in_some_order(order, part_count(name)),
        0 <= p,
        p + order.len() < 16 * dir_sectors(v.image, l, location).len(),
        no_end(v.image, dir_sectors(v.image, l, location), p + order.len() + 1),
        p == 0 || of_a_file(record_at(v.image, dir_sectors(v.image, l, location), p - 1)),
        forall|i: int|
            0 <= i < order.len() ==> holds_part(
                #[trigger] record_at(v.image, dir_sectors(v.image, l, location), p + i),
                name,
                order[i],
            ),
        of_a_file(record_at(v.image, dir_sectors(v.image, l, location), p + order.len())),
    ensures
        ({
            let dir = dir_sectors(v.image, l, location);
            let n = listed_to(v.image, dir, p).entries.len() as int;
            let entries = listing(v, location)->Ok_0;
            &&& listing(v, location) is Ok
            &&& n < entries.len()
            &&& entries[n].name == encode_utf8(name)
            &&& says_of(record_at(v.image, dir, p + order.len()), entries[n])
            &&& (forall|i: int| 0 <= i < n ==> !same_name((#[trigger] entries[i]).name, encode_utf8(name)))
                ==> found(v, location, encode_utf8(name)) == Ok::<Entry, &'static str>(entries[n])
        }),
{
    let d = v.image;
    let dir = dir_sectors(d, l, location);
    let k = order.len() as int;
    assert(no_end(d, dir, p)) by {
        assert forall|j: int| 0 <= j < p implies (#[trigger] record_at(d, dir, j))[0] != 0 by {}
    }
    lemma_starts_anew(d, dir, p);
    lemma_gathered(d, dir, p, order, name, k);
    let x = listed_to(d, dir, p + k);
    assert(parts_of(x.parts, order, name));
    law_long_name(x.parts, order, name);
    let rec = record_at(d, dir, p + k);
    lemma_attributes(rec[11]);
    let y = listed_to(d, dir, p + k + 1);
    assert(y == listed_record(x, rec));
    let n = listed_to(d, dir, p).entries.len() as int;
    assert(y.entries.len() == n + 1);
    lemma_listing(d, dir, 0);
    assert(dir.skip(0) =~= dir);
    assert(listed_to(d, dir, 0) == crate::volume::fresh_listing());
    lemma_listed_grows(d, dir, p + k + 1, 16 * dir.len() as int);
    let entries = listing(v, location)->Ok_0;
    assert(entries.take(n + 1)[n] == entries[n]);
    assert(entries[n] == y.entries[n]);
    if forall|i: int| 0 <= i < n ==> !same_name((#[trigger] entries[i]).name, encode_utf8(name)) {
        lemma_none_named(entries.take(n), encode_utf8(name));
        lemma_first_named(entries, n, encode_utf8(name));
    }
}

proof fn lemma_none_named(entries: Seq<Entry>, name: Seq<u8>)
    requires
        forall|i: int| 0 <= i < entries.len() ==> !same_name((#[trigger] entries[i]).name, name),
    ensures
        first_named(entries, name) is None,
    decreases entries.len(),
{
    if entries.len() > 0 {
        assert(!same_name(entries[0].name, name));
        assert forall|i: int| 0 <= i < entries.drop_first().len() implies !same_name(
            (#[trigger] entries.drop_first()[i]).name,
            name,
        ) by {
            assert(entries.drop_first()[i] == entries[i + 1]);
        }
        lemma_none_named(entries.drop_first(), name);
    }
}

// ---- Short names ----

/// Whether eleven bytes spell a name: up to eight bytes of it and up to three
/// of its extension, each filled up with spaces.
pub open spec fn spells(raw: Seq<u8>, base: Seq<u8>, ext: Seq<u8>) -> bool {
    &&& raw.len() == 11
    &&& 0 < base.len() <= 8
    &&& ext.len() <= 3
    &&& base.last() != 0x20
    &&& ext.len() > 0 ==> ext.last() != 0x20
    &&& forall|i: int| 0 <= i < base.len() ==> #[trigger] base[i] < 0x80
    &&& forall|i: int| 0 <= i < ext.len() ==> #[trigger] ext[i] < 0x80
    &&& forall|i: int|
        0 <= i < 11 ==> #[trigger] raw[i] == if i < base.len() {
            base[i]
        } else if 8 <= i < 8 + ext.len() {
            ext[i - 8]
        } else {
            0x20
        }
}

proof fn lemma_padding_cut(s: Seq<u8>, n: int)
    requires
        0 <= n <= s.len(),
        n > 0 ==> s[n - 1] != 0x20,
        forall|i: int| n <= i < s.len() ==> s[i] == 0x20,
    ensures
        crate::volume::trimmed(s) == s.take(n),
    decreases s.len(),
{
    if s.len() > n {
        lemma_padding_cut(s.drop_last(), n);
        assert(s.drop_last().take(n) =~= s.take(n));
    } else {
        assert(s.take(n) =~= s);
    }
}

proof fn lemma_plain_text(s: Seq<u8>)
    requires
        forall|i: int| 0 <= i < s.len() ==> #[trigger] s[i] < 0x80,
    ensures
        crate::volume::latin(s) == s,
    decreases s.len(),
{
    if s.len() > 0 {
        lemma_plain_text(s.drop_last());
        assert(crate::volume::latin(s) =~= s);
    }
}

/// Eleven bytes are shown as the name that they spell, with a dot before the
/// extension if there is one.
pub proof fn law_short_name(raw: Seq<u8>, base: Seq<u8>, ext: Seq<u8>)
    requires
        spells(raw, base, ext),
    ensures
        crate::volume::short_text(raw) == if ext.len() > 0 {
            base + seq![0x2Eu8] + ext
        } else {
            base
        },
{
    let a = raw.subrange(0, 8);
    let b = raw.subrange(8, 11);
    assert(forall|i: int| 0 <= i < 8 ==> a[i] == raw[i]);
    assert(forall|i: int| 0 <= i < 3 ==> b[i] == raw[8 + i]);
    lemma_padding_cut(a, base.len() as int);
    lemma_padding_cut(b, ext.len() as int);
    assert(a.take(base.len() as int) =~= base);
    assert(b.take(ext.len() as int) =~= ext);
    lemma_plain_text(base);
    lemma_plain_text(ext);
}

/// A file whose record has no long name before it is listed under the name
/// that the record spells, with the size, the first cluster and the kind that
/// the record says.
pub proof fn law_short_names_are_listed(
    v: Volume,
    l: Layout,
    location: DirLocation,
    p: int,
    base: Seq<u8>,
    ext: Seq<u8>,
)
    requires
        v.layout == Some(l),
        image_ok(v.image),
        readable(v.image, dir_sectors(v.image, l, location)),
        0 <= p < 16 * dir_sectors(v.image, l, location).len(),
        no_end(v.image, dir_sectors(v.image, l, location), p + 1),
        p == 0 || of_a_file(record_at(v.image, dir_sectors(v.image, l, location), p - 1)),
        of_a_file(record_at(v.image, dir_sectors(v.image, l, location), p)),
        spells(record_at(v.image, dir_sectors(v.image, l, location), p).subrange(0, 11), base, ext),
    ensures
        ({
            let dir = dir_sectors(v.image, l, location);
            let n = listed_to(v.image, dir, p).entries.len() as int;
            let entries = listing(v, location)->Ok_0;
            &&& listing(v, location) is Ok
            &&& n < entries.len()
            &&& entries[n].name == if ext.len() > 0 {
                base + seq![0x2Eu8] + ext
            } else {
                base
            }
            &&& says_of(record_at(v.image, dir, p), entries[n])
        }),
{
    let d = v.image;
    let dir = dir_sectors(d, l, location);
    assert(no_end(d, dir, p)) by {
        assert forall|j: int| 0 <= j < p implies (#[trigger] record_at(d, dir, j))[0] != 0 by {}
    }
    lemma_starts_anew(d, dir, p);
    let rec = record_at(d, dir, p);
    lemma_attributes(rec[11]);
    law_short_name(rec.subrange(0, 11), base, ext);
    let x = listed_to(d, dir, p);
    let y = listed_to(d, dir, p + 1);
    assert(y == listed_record(x, rec));
    let n = x.entries.len() as int;
    lemma_listing(d, dir, 0);
    assert(dir.skip(0) =~= dir);
    assert(listed_to(d, dir, 0) == crate::volume::fresh_listing());
    lemma_listed_grows(d, dir, p + 1, 16 * dir.len() as int);
    let entries = listing(v, location)->Ok_0;
    assert(entries.take(n + 1)[n] == entries[n]);
    assert(entries[n] == y.entries[n]);
}

/// A record adds at most one entry to a listing: none if it is free, deleted,
/// part of a long name, a label, or one of the two that lead to the directory
/// itself and the one above; one if it is of a file. Behind a free record
/// nothing is listed.
pub proof fn law_records_listed(x: Listing, rec: Seq<u8>)
    requires
        rec.len() == 32,
    ensures
        ({
            let y = listed_record(x, rec);
            &&& x.done ==> y == x
            &&& !x.done && rec[0] == 0 ==> y.done && y.entries == x.entries
            &&& !x.done && of_a_file(rec) ==> y.entries.len() == x.entries.len() + 1 && y.entries.drop_last()
                == x.entries && says_of(rec, y.entries.last()) && !y.done
            &&& !x.done && rec[0] != 0 && !of_a_file(rec) ==> y.entries == x.entries && !y.done
        }),
{
    lemma_attributes(rec[11]);
    let y = listed_record(x, rec);
    if y.entries.len() == x.entries.len() + 1 {
        assert(y.entries.drop_last() =~= x.entries);
    }
}

// ---- Finding names ----

/// Two names that are the same but for the case of ASCII letters.
pub open spec fn same_but_case(a: Seq<u8>, b: Seq<u8>) -> bool {
    &&& a.len() == b.len()
    &&& forall|i: int|
        0 <= i < a.len() ==> #[trigger] a[i] == b[i] || (0x41 <= a[i] <= 0x5A && b[i] == a[i] + 0x20) || (0x61 <= a[i]
            <= 0x7A && b[i] == a[i] - 0x20)
}

/// Looking a name up finds the first entry of the listing whose name is the
/// same but for the case of letters, and nothing if there is none.
pub proof fn law_found(v: Volume, location: DirLocation, name: Seq<u8>)
    requires
        listing(v, location) is Ok,
    ensures
        ({
            let entries = listing(v, location)->Ok_0;
            match found(v, location, name) {
                Ok(e) => exists|i: int|
                    0 <= i < entries.len() && #[trigger] entries[i] == e && same_but_case(e.name, name) && forall|j: int|
                        0 <= j < i ==> !same_but_case((#[trigger] entries[j]).name, name),
                Err(_) => forall|j: int| 0 <= j < entries.len() ==> !same_but_case((#[trigger] entries[j]).name, name),
            }
        }),
{
    lemma_first_found(listing(v, location)->Ok_0, name);
}

proof fn lemma_same_name(a: Seq<u8>, b: Seq<u8>)
    ensures
        same_name(a, b) == same_but_case(a, b),
{
    if same_name(a, b) {
        assert forall|i: int| 0 <= i < a.len() implies #[trigger] a[i] == b[i] || (0x41 <= a[i] <= 0x5A && b[i] == a[i]
            + 0x20) || (0x61 <= a[i] <= 0x7A && b[i] == a[i] - 0x20) by {
            assert(crate::volume::upper(a[i]) == crate::volume::upper(b[i]));
        }
    }
    if same_but_case(a, b) {
        assert forall|i: int| 0 <= i < a.len() implies crate::volume::upper(#[trigger] a[i]) == crate::volume::upper(
            b[i],
        ) by {}
    }
}

proof fn lemma_first_found(entries: Seq<Entry>, name: Seq<u8>)
    ensures
        match first_named(entries, name) {
            Some(e) => exists|i: int|
                0 <= i < entries.len() && #[trigger] entries[i] == e && same_but_case(e.name, name) && forall|j: int|
                    0 <= j < i ==> !same_but_case((#[trigger] entries[j]).name, name),
            None => forall|j: int| 0 <= j < entries.len() ==> !same_but_case((#[trigger] entries[j]).name, name),
        },
    decreases entries.len(),
{
    if entries.len() > 0 {
        lemma_same_name(entries[0].name, name);
        let rest = entries.drop_first();
        if same_name(entries[0].name, name) {
            assert(entries[0] == entries[0]);
        } else {
            lemma_first_found(rest, name);
            match first_named(rest, name) {
                Some(e) => {
                    let i = choose|i: int|
                        0 <= i < rest.len() && #[trigger] rest[i] == e && same_but_case(e.name, name) && forall|j: int|
                            0 <= j < i ==> !same_but_case((#[trigger] rest[j]).name, name);
                    assert(entries[i + 1] == e);
                    assert forall|j: int| 0 <= j < i + 1 implies !same_but_case((#[trigger] entries[j]).name, name) by {
                        if j > 0 {
                            assert(rest[j - 1] == entries[j]);
                        }
                    }
                },
                None => {
                    assert forall|j: int| 0 <= j < entries.len() implies !same_but_case(
                        (#[trigger] entries[j]).name,
                        name,
                    ) by {
                        if j > 0 {
                            assert(rest[j - 1] == entries[j]);
                        }
                    }
                },
            }
        }
    }
}

} // verus!
