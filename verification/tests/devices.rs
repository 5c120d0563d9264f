use konjac::gdt::{build, flat_descriptor, halves, star, tss_descriptor};
use konjac::idt::{exception_name, Idt};
use konjac::keyboard::{clear_doom_events, read_char, read_doom_event, Keyboard, Ring};
use konjac::ports::{
    command_for, end_of_interrupt, mask_port, poll_done, poll_ready, remap, set_masks, status_to_message, to_terminal,
    transmit_empty, unmasked, Poll, SerialPort,
};
use konjac::text::{
    next_word, parse_number, push_decimal, push_hex, push_indented, push_padded, split_once, trim, trim_end, trim_start,
};
use konjac::timer::{setup, ticks, uptime_seconds, Timer};

#[test]
fn letters_are_typed_with_and_without_shift() {
    let mut k = Keyboard::new();
    for code in [0x1Eu8, 0x2A, 0x1E, 0xAA, 0x1C, 0x0E, 0x9E] {
        k.take_scancode(code);
    }
    assert_eq!(read_char(&mut k), Some(b'a'));
    assert_eq!(read_char(&mut k), Some(b'A'));
    assert_eq!(read_char(&mut k), Some(b'\n'));
    assert_eq!(read_char(&mut k), Some(8));
    assert_eq!(read_char(&mut k), None);
}

#[test]
fn games_see_presses_and_releases() {
    let mut k = Keyboard::new();
    k.take_scancode(0x1E);
    k.take_scancode(0x9E);
    assert_eq!(read_doom_event(&mut k), Some((true, b'a')));
    assert_eq!(read_doom_event(&mut k), Some((false, b'a')));
    assert_eq!(read_doom_event(&mut k), None);
    k.take_scancode(0x1E);
    clear_doom_events(&mut k);
    assert_eq!(read_doom_event(&mut k), None);
    assert_eq!(read_char(&mut k), Some(b'a'));
}

#[test]
fn a_full_queue_drops_what_comes() {
    let mut r = Ring::new(4);
    for i in 0..6u16 {
        r.push(i);
    }
    assert_eq!((r.pop(), r.pop(), r.pop(), r.pop()), (Some(0), Some(1), Some(2), None));
    r.push(9);
    r.clear();
    assert_eq!(r.pop(), None);
}

#[test]
fn the_timer_counts_hundredths() {
    let mut t = Timer::new();
    for _ in 0..250 {
        t.tick();
    }
    assert_eq!((ticks(&t), uptime_seconds(&t)), (250, 2));
    assert_eq!(setup(), [(0x43, 0x36), (0x40, 0x9B), (0x40, 0x2E)]);
}

#[test]
fn interrupts_are_moved_out_of_the_way() {
    let out = remap();
    assert!(out.contains(&(0x21, 32)));
    assert!(out.contains(&(0xA1, 40)));
    assert_eq!(set_masks(), [(0x21, 0xF8), (0xA1, 0xFF)]);
    assert_eq!((mask_port(1), mask_port(12)), (0x21, 0xA1));
    assert_eq!((unmasked(0xFF, 1), unmasked(0xFF, 12)), (0xFD, 0xEF));
    assert_eq!(end_of_interrupt(1), vec![(0x20, 0x20)]);
    assert_eq!(end_of_interrupt(12), vec![(0xA0, 0x20), (0x20, 0x20)]);
}

#[test]
fn the_serial_port_gets_carriage_returns() {
    let mut port = SerialPort::new();
    assert!(port.init().len() > 0);
    assert!(transmit_empty(0x20));
    assert!(!transmit_empty(0xDF));
    assert_eq!(to_terminal(b"a\nb"), b"a\r\nb".to_vec());
}

#[test]
fn the_disk_is_polled() {
    assert!(matches!(poll_ready(0x80), Poll::Again));
    assert!(matches!(poll_ready(0x08), Poll::Ready));
    assert!(matches!(poll_ready(0x01), Poll::Failed(1)));
    assert!(matches!(poll_done(0x00), Poll::Ready));
    assert!(matches!(poll_done(0x20), Poll::Failed(0x20)));
    assert!(status_to_message(0x01).starts_with("ATA error (ERR set"));
    let out = command_for(0x0123_4567, false);
    assert_eq!(out[0], (0x1F6, 0xE1));
    assert!(out.contains(&(0x1F3, 0x67)) && out.contains(&(0x1F4, 0x45)) && out.contains(&(0x1F5, 0x23)));
    assert_eq!(out[out.len() - 1], (0x1F7, 0x20));
    let write = command_for(5, true);
    assert_eq!(write[write.len() - 1], (0x1F7, 0x30));
}

#[test]
fn descriptors_have_their_bits() {
    assert_eq!(flat_descriptor(0x9A, 0x2), 0x0020_9A00_0000_0000);
    let (low, high) = tss_descriptor(0x1234_5678_9ABC_DEF0, 103);
    assert_eq!(high, 0x1234_5678);
    assert_eq!(low, 0x9A00_89BC_DEF0_0067);
    let table = build(0x1000, 103);
    assert_eq!(table[0], 0);
    assert_eq!(table[1], 0x0020_9A00_0000_0000);
    assert_eq!(halves(0x0001_0002_0003_0004), (0x0003_0004, 0x0001_0002));
    assert_eq!(star(), 0x0038_0008_0000_0000);
}

#[test]
fn handlers_are_found_from_their_descriptors() {
    let mut idt = Idt::new(&[0x1111_2222_3333_4444; 32]);
    let e = idt.entries[3];
    assert_eq!((e.offset_low, e.offset_mid, e.offset_high), (0x4444, 0x3333, 0x1111_2222));
    assert_eq!((e.selector, e.type_attr), (0x08, 0x8E));
    assert_eq!(idt.entries[8].ist, 1);
    idt.set_user_handler(0x80, 0x5000);
    assert_eq!(idt.entries[0x80].type_attr, 0xEE);
    idt.set_handler(0x20, 0x6000);
    assert_eq!((idt.entries[0x20].offset_low, idt.entries[0x20].type_attr), (0x6000, 0x8E));
    assert_eq!(exception_name(14), "Page Fault");
}

#[test]
fn numbers_are_written_and_read() {
    let mut out = Vec::new();
    push_decimal(&mut out, 0);
    push_decimal(&mut out, 1_234_567);
    push_hex(&mut out, 0xBEEF);
    assert_eq!(out, b"01234567beef".to_vec());
    assert_eq!(parse_number(b"1234567", u64::MAX), Some(1_234_567));
    assert_eq!(parse_number(b"+5", 10), Some(5));
    assert_eq!(parse_number(b"11", 10), None);
    assert_eq!(parse_number(b"18446744073709551616", u64::MAX), None);
    assert_eq!(parse_number(b"", 10), None);
    assert_eq!(parse_number(b"-1", 10), None);
}

#[test]
fn text_is_padded_and_cut() {
    let mut out = Vec::new();
    push_padded(&mut out, b"ab", 4);
    push_indented(&mut out, b"cd", 4);
    assert_eq!(out, b"ab    cd".to_vec());
    assert_eq!(trim(b"  a b \n"), b"a b".to_vec());
    assert_eq!(trim("\u{A0}\u{2003}a\u{3000}b\u{85}\u{1680} ".as_bytes()), "a\u{3000}b".as_bytes().to_vec());
    assert_eq!(next_word("one\u{2028}two".as_bytes()), Some((b"one".to_vec(), "\u{2028}two".as_bytes().to_vec())));
    assert_eq!(trim_start(b" a "), b"a ".to_vec());
    assert_eq!(trim_end(b" a "), b" a".to_vec());
    assert_eq!(split_once(b"a=b=c", b'='), Some((b"a".to_vec(), b"b=c".to_vec())));
    assert_eq!(split_once(b"abc", b'='), None);
    assert_eq!(next_word(b"  one two"), Some((b"one".to_vec(), b" two".to_vec())));
    assert_eq!(next_word(b"  "), None);
}
