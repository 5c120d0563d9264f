//! What holds of the keyboard and the mouse over several bytes from their
//! controller.
use crate::keyboard::{game_key, plain_char, shifted_char, Keyboard};
use crate::mouse::Mouse;
use vstd::prelude::*;
use vstd::string::*;

verus! {

// ---- The keyboard ----

/// What the keys type, by their codes: Escape, the digits, Backspace, Tab, the
/// letters by rows with Enter and the keys that type nothing between them, and
/// the space bar.
pub open spec fn layout() -> Seq<u8> {
    seq![
        0u8, 27, 49, 50, 51, 52, 53, 54, 55, 56, 57, 48, 45, 61, 8, 9,
        113, 119, 101, 114, 116, 121, 117, 105, 111, 112, 91, 93, 10, 0, 97, 115,
        100, 102, 103, 104, 106, 107, 108, 59, 39, 96, 0, 92, 122, 120, 99, 118,
        98, 110, 109, 44, 46, 47, 0, 0, 0, 32,
    ]
}

/// What the keys that are no letters type with shift held, by what they type
/// without.
pub open spec fn with_shift(c: u8) -> u8 {
    if 97 <= c <= 122 {
        (c - 32) as u8
    } else if c == 49 {
        33
    } else if c == 50 {
        64
    } else if 51 <= c <= 53 {
        (c - 16) as u8
    } else if c == 54 {
        94
    } else if c == 55 {
        38
    } else if c == 56 {
        42
    } else if c == 57 {
        40
    } else if c == 48 {
        41
    } else if c == 45 {
        95
    } else if c == 61 {
        43
    } else if 91 <= c <= 93 {
        (c + 32) as u8
    } else if c == 59 {
        58
    } else if c == 39 {
        34
    } else if c == 96 {
        126
    } else if c == 44 {
        60
    } else if c == 46 {
        62
    } else if c == 47 {
        63
    } else {
        0
    }
}

proof fn lemma_rows()
    ensures
        "1234567890-=".spec_bytes() =~= seq![49u8, 50, 51, 52, 53, 54, 55, 56, 57, 48, 45, 61],
        "qwertyuiop[]".spec_bytes() =~= seq![113u8, 119, 101, 114, 116, 121, 117, 105, 111, 112, 91, 93],
        "asdfghjkl;'`".spec_bytes() =~= seq![97u8, 115, 100, 102, 103, 104, 106, 107, 108, 59, 39, 96],
        "\\zxcvbnm,./".spec_bytes() =~= seq![92u8, 122, 120, 99, 118, 98, 110, 109, 44, 46, 47],
{
    reveal_strlit("1234567890-=");
    reveal_strlit("qwertyuiop[]");
    reveal_strlit("asdfghjkl;'`");
    reveal_strlit("\\zxcvbnm,./");
    is_ascii_spec_bytes("1234567890-=");
    is_ascii_spec_bytes("qwertyuiop[]");
    is_ascii_spec_bytes("asdfghjkl;'`");
    is_ascii_spec_bytes("\\zxcvbnm,./");
}

proof fn lemma_shifted_rows()
    ensures
        "!@#$%^&*()_+".spec_bytes() =~= seq![33u8, 64, 35, 36, 37, 94, 38, 42, 40, 41, 95, 43],
        "QWERTYUIOP{}".spec_bytes() =~= seq![81u8, 87, 69, 82, 84, 89, 85, 73, 79, 80, 123, 125],
        "ASDFGHJKL:\"~".spec_bytes() =~= seq![65u8, 83, 68, 70, 71, 72, 74, 75, 76, 58, 34, 126],
        "|ZXCVBNM<>?".spec_bytes() =~= seq![124u8, 90, 88, 67, 86, 66, 78, 77, 60, 62, 63],
{
    reveal_strlit("!@#$%^&*()_+");
    reveal_strlit("QWERTYUIOP{}");
    reveal_strlit("ASDFGHJKL:\"~");
    reveal_strlit("|ZXCVBNM<>?");
    is_ascii_spec_bytes("!@#$%^&*()_+");
    is_ascii_spec_bytes("QWERTYUIOP{}");
    is_ascii_spec_bytes("ASDFGHJKL:\"~");
    is_ascii_spec_bytes("|ZXCVBNM<>?");
}

/// Every key types what the layout says, and keys outside it nothing. With
/// shift held a letter is its capital; keys whose character has no other form
/// type nothing.
pub proof fn law_layout(code: u8)
    requires
        code < 128,
    ensures
        plain_char(code) == if code < 58 {
            layout()[code as int]
        } else {
            0
        },
        shifted_char(code) == with_shift(plain_char(code)),
{
    lemma_rows();
    lemma_shifted_rows();
}

/// The key of a game: the character that the key types, but for those that
/// games know by codes of their own. The arrows are 0xAC (left), 0xAD (up),
/// 0xAE (right) and 0xAF (down), and function keys and the keys at the edge
/// are their codes from 0x80 on.
pub proof fn law_game_keys(code: u8)
    requires
        code < 128,
    ensures
        plain_char(code) > 32 || code == 1 || code == 15 ==> game_key(code) == plain_char(code),
        code == 14 ==> game_key(code) == 127,
        code == 28 ==> game_key(code) == 13,
        code == 29 ==> game_key(code) == 0xA3,
        code == 57 ==> game_key(code) == 0xA2,
        code == 42 || code == 54 ==> game_key(code) == 0x80 + 54,
        code == 56 || 59 <= code <= 68 ==> game_key(code) == 0x80 + code,
        code == 75 ==> game_key(code) == 0xAC,
        code == 72 ==> game_key(code) == 0xAD,
        code == 77 ==> game_key(code) == 0xAE,
        code == 80 ==> game_key(code) == 0xAF,
        code == 0 || code == 58 || 69 <= code <= 71 || code == 73 || code == 74 || code == 76 || code == 78 || code
            == 79 || code > 80 ==> game_key(code) == 0,
{
    lemma_rows();
}

/// What `k` has after a key that goes down, with room for another character
/// and another event: shift is held from when one of its keys goes down until
/// one goes up, and a key that is let go types nothing.
pub proof fn law_scancode(k: Keyboard, after: Keyboard, code: u8)
    requires
        k.wf(),
        k.scanned(code, after),
        k.chars@.len() < k.chars.room(),
        k.events@.len() < k.events.room(),
    ensures
        after.shift == if code == 42 || code == 54 {
            true
        } else if code == 128 + 42 || code == 128 + 54 {
            false
        } else {
            k.shift
        },
        code >= 128 ==> after.chars@ == k.chars@,
        code < 128 ==> ({
            let c = if code >= 58 {
                0u8
            } else if k.shift {
                with_shift(layout()[code as int])
            } else {
                layout()[code as int]
            };
            after.chars@ == if c == 0 {
                k.chars@
            } else {
                k.chars@.push(c as u16)
            }
        }),
        ({
            let down = code < 128;
            let key = game_key((code % 128) as u8);
            after.events@ == if key == 0 {
                k.events@
            } else if down {
                k.events@.push((256 + key) as u16)
            } else {
                k.events@.push(key as u16)
            }
        }),
{
    if code < 128 {
        law_layout(code);
    }
}

// ---- The mouse ----

/// What the number in nine bits is, of which a flag is the highest.
pub open spec fn signed(low: u8, high: u8) -> int {
    low - 256 * high
}

/// Of the numbers on the screen, the nearest.
pub open spec fn nearest(v: int, size: int, r: int) -> bool {
    &&& 0 <= r < size
    &&& 0 <= v < size ==> r == v
    &&& v < 0 ==> r == 0
    &&& v >= size ==> r == size - 1
}

/// Three bytes, the first of them with bit 3 set, move the mouse: right by
/// the second, with bit 4 of the first as its ninth bit, and up by the third,
/// with bit 5. The lowest three bits of the first are the buttons.
pub proof fn law_packet(m: Mouse, m1: Mouse, m2: Mouse, m3: Mouse, first: u8, second: u8, third: u8)
    requires
        m.wf(),
        m.packet@.len() == 0,
        first / 8 % 2 == 1,
        m.packet_taken(first, m1),
        m1.packet_taken(second, m2),
        m2.packet_taken(third, m3),
        m2.screen_w == m.screen_w,
        m2.screen_h == m.screen_h,
    ensures
        m2.x == m.x && m2.y == m.y && m2.buttons == m.buttons,
        m3.packet@.len() == 0,
        nearest(m.x + signed(second, first / 16 % 2), m.screen_w as int, m3.x as int),
        nearest(m.y - signed(third, first / 32 % 2), m.screen_h as int, m3.y as int),
        m3.buttons == first % 8,
{
    lemma_flags(first);
    assert(m2.packet@ =~= seq![first, second]);
}

proof fn lemma_flags(f: u8)
    by (bit_vector)
    ensures
        (f & 8 != 0) == (f / 8 % 2 == 1),
        (f & 0x10 != 0) == (f / 16 % 2 == 1),
        (f & 0x20 != 0) == (f / 32 % 2 == 1),
        f & 7 == f % 8,
{
}

/// A first byte without bit 3 is none: it is passed over.
pub proof fn law_lost_byte(m: Mouse, after: Mouse, byte: u8)
    requires
        m.packet@.len() == 0,
        byte / 8 % 2 == 0,
        m.packet_taken(byte, after),
    ensures
        after.packet@.len() == 0,
        after.x == m.x,
        after.y == m.y,
        after.buttons == m.buttons,
{
    lemma_flags(byte);
}

} // verus!
