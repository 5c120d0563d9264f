use konjac::elf::{parse_elf, parse_elf_at};
use konjac::fat16::{Disk, Fs};
use konjac::limine::{MemmapEntry, MemmapKind};
use konjac::loader::{detect, load_and_run, Format};
use konjac::paging::{current_cr3, map_page, translate, Memory};
use konjac::pe::parse_pe;
use konjac::pmm::{alloc_frame, Pmm};
use konjac::ram::load_byte;
use konjac::task::TaskTable;
use konjac::usermode::{spawn_one, USER_CODE_BASE};

fn memory(frames: u64) -> Memory {
    let mut pmm = Pmm::new();
    konjac::pmm::init(&mut pmm, 0, &[MemmapEntry { base: 0, length: frames * 4096, kind: MemmapKind::Usable }]);
    let cr3 = alloc_frame(&mut pmm).unwrap();
    Memory { ram: vec![0u64; frames as usize * 512], pmm, cr3, nx: true }
}

fn tasks_for(mem: &Memory) -> TaskTable {
    let mut tasks = TaskTable::new(0x1000, 0x2000);
    konjac::task::init(&mut tasks, mem);
    tasks
}

fn put(b: &mut [u8], at: usize, v: u64, n: usize) {
    for i in 0..n {
        b[at + i] = (v >> (8 * i)) as u8;
    }
}

fn elf(payload: &[u8]) -> Vec<u8> {
    let mut b = vec![0u8; 120];
    b[..7].copy_from_slice(&[0x7F, b'E', b'L', b'F', 2, 1, 1]);
    put(&mut b, 16, 2, 2);
    put(&mut b, 18, 62, 2);
    put(&mut b, 24, 0x40_0010, 8);
    put(&mut b, 32, 64, 8);
    put(&mut b, 54, 56, 2);
    put(&mut b, 56, 1, 2);
    put(&mut b, 64, 1, 4);
    put(&mut b, 68, 5, 4);
    put(&mut b, 72, 120, 8);
    put(&mut b, 80, 0x40_0010, 8);
    put(&mut b, 96, payload.len() as u64, 8);
    put(&mut b, 104, payload.len() as u64 + 8192, 8);
    b.extend_from_slice(payload);
    b
}

fn byte(mem: &Memory, pml4: u64, a: u64) -> Option<u8> {
    translate(mem, pml4, a - a % 4096).map(|p| load_byte(&mem.ram, p + a % 4096))
}

fn word(mem: &Memory, pml4: u64, a: u64) -> u64 {
    (0..8).map(|i| (byte(mem, pml4, a + i).unwrap() as u64) << (8 * i)).sum()
}

fn text(mem: &Memory, pml4: u64, a: u64) -> Vec<u8> {
    (a..).map(|x| byte(mem, pml4, x).unwrap()).take_while(|b| *b != 0).collect()
}

#[test]
fn formats_are_told_apart() {
    assert!(detect(b"\x7FELF") == Format::Elf);
    assert!(detect(b"MZ") == Format::Pe);
    assert!(detect(b"\xEB\xFE") == Format::Flat);
    assert_eq!(Format::Elf.label(), "ELF64");
}

#[test]
fn a_program_header_becomes_a_segment() {
    let image = parse_elf(&elf(b"code")).unwrap();
    assert_eq!(image.entry, 0x40_0010);
    assert_eq!(image.segments.len(), 1);
    assert_eq!(image.segments[0].vaddr, 0x40_0010);
    assert_eq!(image.segments[0].file_bytes, b"code".to_vec());
    assert_eq!(image.segments[0].mem_size, 4 + 8192);
}

#[test]
fn a_movable_file_is_moved() {
    let mut b = elf(b"code");
    put(&mut b, 16, 3, 2);
    let image = parse_elf_at(&b, Some(0x44_0000_0000)).unwrap();
    assert_eq!(image.segments[0].vaddr, 0x44_0040_0010);
    assert_eq!(image.entry, 0x44_0040_0010);
}

fn refusal(change: fn(&mut Vec<u8>)) -> &'static str {
    let mut b = elf(b"code");
    change(&mut b);
    match parse_elf(&b) {
        Ok(_) => "accepted",
        Err(e) => e,
    }
}

#[test]
fn malformed_headers_have_their_errors() {
    assert_eq!(refusal(|b| b.truncate(63)), "loader: ELF file too short to hold an ELF64 header");
    assert_eq!(refusal(|b| b[1] = 0), "loader: not an ELF file (bad magic)");
    assert_eq!(refusal(|b| b[4] = 1), "loader: only 64-bit ELF (EI_CLASS=ELFCLASS64) is supported");
    assert_eq!(refusal(|b| b[5] = 2), "loader: only little-endian ELF (EI_DATA=ELFDATA2LSB) is supported");
    assert_eq!(
        refusal(|b| b[16] = 1),
        "loader: only ET_EXEC (static) or ET_DYN (PIE/shared library) ELF files are supported"
    );
    assert_eq!(refusal(|b| b[18] = 3), "loader: not an x86_64 (EM_X86_64) ELF executable");
    assert_eq!(refusal(|b| b[56] = 0), "loader: ELF file has no PT_LOAD segments -- nothing to run");
    assert_eq!(refusal(|b| b[104] = 0), "accepted");
    assert_eq!(
        refusal(|b| put(b, 104, 1, 8)),
        "loader: ELF PT_LOAD segment's file size exceeds its memory size"
    );
    assert_eq!(refusal(|b| put(b, 72, 0x1000, 8)), "loader: ELF program header points outside the file");
}

#[test]
fn a_section_table_becomes_segments() {
    let mut b = vec![0u8; 0x400];
    b[..2].copy_from_slice(b"MZ");
    put(&mut b, 0x3C, 0x80, 4);
    b[0x80..0x84].copy_from_slice(b"PE\0\0");
    put(&mut b, 0x84, 0x8664, 2);
    put(&mut b, 0x86, 1, 2);
    put(&mut b, 0x94, 0xF0, 2);
    put(&mut b, 0x98, 0x20B, 2);
    put(&mut b, 0x98 + 16, 0x1000, 4);
    put(&mut b, 0x98 + 24, 0x1_4000_0000, 8);
    let section = 0x98 + 0xF0;
    put(&mut b, section + 8, 0x20, 4);
    put(&mut b, section + 12, 0x1000, 4);
    put(&mut b, section + 16, 0x10, 4);
    put(&mut b, section + 20, 0x300, 4);
    put(&mut b, section + 36, 0x6000_0020, 4);
    b[0x300] = 0x90;
    let image = parse_pe(&b).unwrap();
    assert_eq!(image.entry, 0x1_4000_1000);
    assert_eq!(image.segments[0].vaddr, 0x1_4000_1000);
    assert_eq!(image.segments[0].file_bytes[0], 0x90);
    assert_eq!(image.segments[0].mem_size, 0x20);
    put(&mut b, 0x84, 0x14C, 2);
    assert!(matches!(parse_pe(&b), Err("loader: not an x86_64 (IMAGE_FILE_MACHINE_AMD64) PE executable")));
    put(&mut b, 0x84, 0x8664, 2);
    put(&mut b, 0x98, 0x10B, 2);
    assert!(matches!(
        parse_pe(&b),
        Err("loader: only PE32+ (64-bit) executables are supported, not classic 32-bit PE32")
    ));
    b[0x80] = 0;
    assert!(matches!(parse_pe(&b), Err("loader: not a PE file (bad PE signature)")));
    b[0] = 0;
    assert!(matches!(parse_pe(&b), Err("loader: not a PE file (bad DOS signature)")));
    assert!(matches!(parse_pe(b"MZ"), Err("loader: PE file too short to hold a DOS header")));
}

#[test]
fn a_program_is_loaded_into_its_own_space() {
    let mut mem = memory(256);
    let mut tasks = tasks_for(&mem);
    let mut fs = Fs::new(Disk { sectors: vec![] });
    let kernel = current_cr3(&mem);
    let argv = vec![b"prog".to_vec(), b"-x".to_vec()];
    let envp = vec![b"HOME=/".to_vec()];
    let r = load_and_run(&mut fs, &mut mem, &mut tasks, "run:elf", &argv, &envp, &elf(b"code"), 0x9000_0000);
    assert!(matches!(r, Ok((1, Format::Elf))));
    let task = tasks.slots[1].as_ref().unwrap();
    let pml4 = task.cr3;
    assert_ne!(pml4, kernel);
    assert_eq!(task.stack[6], 0x2000);
    assert_eq!(task.stack[3], 0x40_0010);
    assert_eq!(task.exe_path, b"prog".to_vec());
    assert_eq!(text(&mem, pml4, 0x40_0010), b"code".to_vec());
    assert_eq!(byte(&mem, pml4, 0x40_2013), Some(0));
    assert_eq!(byte(&mem, kernel, 0x40_0010), None);
    let sp = task.stack[2];
    assert_eq!(sp % 16, 0);
    assert_eq!(word(&mem, pml4, sp), 2);
    assert_eq!(text(&mem, pml4, word(&mem, pml4, sp + 8)), b"prog".to_vec());
    assert_eq!(text(&mem, pml4, word(&mem, pml4, sp + 16)), b"-x".to_vec());
    assert_eq!(word(&mem, pml4, sp + 24), 0);
    assert_eq!(text(&mem, pml4, word(&mem, pml4, sp + 32)), b"HOME=/".to_vec());
    assert_eq!(word(&mem, pml4, sp + 40), 0);
    assert_eq!(word(&mem, pml4, sp + 48), 3);
}

#[test]
fn loading_without_memory_fails() {
    let mut mem = memory(8);
    let mut tasks = tasks_for(&mem);
    let mut fs = Fs::new(Disk { sectors: vec![] });
    let argv = vec![b"prog".to_vec()];
    let r = load_and_run(&mut fs, &mut mem, &mut tasks, "run:bin", &argv, &vec![], &[0x90], 0x9000_0000);
    assert!(r.is_err());
    assert!(tasks.slots[1].is_none());
}

#[test]
fn a_full_table_takes_no_program() {
    let mut mem = memory(256);
    let mut tasks = tasks_for(&mem);
    while konjac::task::spawn(&mut tasks, "filler", 1, 0x10_0000).is_some() {}
    let mut fs = Fs::new(Disk { sectors: vec![] });
    let argv = vec![b"prog".to_vec()];
    let r = load_and_run(&mut fs, &mut mem, &mut tasks, "run:bin", &argv, &vec![], &[0x90], 0x9000_0000);
    assert!(matches!(r, Err("loader: out of task slots")));
}

#[test]
fn demo_programs_get_code_and_a_stack() {
    let mut mem = memory(64);
    let mut tasks = tasks_for(&mem);
    let pml4 = spawn_one(&mut mem, &mut tasks, "ring3-a", &[0xAA, 0xBB], 0x9000_0000).unwrap();
    assert_eq!(tasks.slots[1].as_ref().unwrap().cr3, pml4);
    assert_eq!(byte(&mem, pml4, USER_CODE_BASE), Some(0xAA));
    assert_eq!(byte(&mem, pml4, USER_CODE_BASE + 1), Some(0xBB));
    assert_eq!(byte(&mem, current_cr3(&mem), USER_CODE_BASE), None);
}

/// A movable file with one segment, which holds the whole file, and a dynamic
/// section with two relocations.
fn movable() -> Vec<u8> {
    let mut b = elf(&[0u8; 152]);
    put(&mut b, 16, 3, 2);
    put(&mut b, 24, 0x10, 8);
    put(&mut b, 56, 2, 2);
    put(&mut b, 72, 0, 8);
    put(&mut b, 80, 0, 8);
    put(&mut b, 96, 272, 8);
    put(&mut b, 104, 4096, 8);
    put(&mut b, 120, 2, 4);
    put(&mut b, 128, 176, 8);
    put(&mut b, 152, 48, 8);
    for (i, word) in [7, 224, 8, 48, 0, 0, 0x10, 8, 0x100, 0x18, 37, 0x20].into_iter().enumerate() {
        put(&mut b, 176 + 8 * i, word, 8);
    }
    b
}

#[test]
fn two_places_differ_by_the_shift() {
    let a = parse_elf_at(&movable(), Some(0x1000)).unwrap();
    let b = parse_elf_at(&movable(), Some(0x7_5000)).unwrap();
    let d = 0x7_4000;
    assert_eq!((a.entry, b.entry), (0x1010, 0x1010 + d));
    assert_eq!(a.segments[0].vaddr + d, b.segments[0].vaddr);
    assert_eq!(a.segments[0].file_bytes, b.segments[0].file_bytes);
    assert_eq!(a.relocations, vec![(0x1010, 0x1100)]);
    assert_eq!(b.relocations, vec![(0x1010 + d, 0x1100 + d)]);
    assert_eq!(a.irelative_relocations, vec![(0x1018, 0x1020)]);
    assert_eq!(b.irelative_relocations, vec![(0x1018 + d, 0x1020 + d)]);
    assert_eq!((a.phdr_vaddr, b.phdr_vaddr), (0x1040, 0x1040 + d));
    let mut bad = movable();
    put(&mut bad, 232, 99, 8);
    let reasons = [0x1000, 0x7_5000].map(|bias| match parse_elf_at(&bad, Some(bias)) {
        Ok(_) => "accepted",
        Err(e) => e,
    });
    assert_eq!(reasons[0], reasons[1]);
    assert_ne!(reasons[0], "accepted");
}

#[test]
fn the_kernel_keeps_its_tables_while_programs_are_loaded() {
    let mut mem = memory(256);
    let page = 0xFFFF_9000_0000_0000;
    let frame = alloc_frame(&mut mem.pmm).unwrap();
    map_page(&mut mem, page, frame, 2);
    let mut tasks = tasks_for(&mem);
    let mut fs = Fs::new(Disk { sectors: vec![] });
    let argv = vec![b"prog".to_vec()];
    let mut b = elf(b"code");
    put(&mut b, 80, page + 4096, 8);
    for id in 1..3 {
        let r = load_and_run(&mut fs, &mut mem, &mut tasks, "run:elf", &argv, &vec![], &b, 0x9000_0000);
        assert!(matches!(r, Ok((n, Format::Elf)) if n == id));
        assert_eq!(translate(&mem, current_cr3(&mem), page), Some(frame));
        assert_eq!(text(&mem, current_cr3(&mem), page + 4096), b"code".to_vec());
    }
}
