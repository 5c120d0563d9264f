use konjac::cfile::{bytes_to_string_lossy, fopen, CFile};
use konjac::fat16::{init, read_file, write_file, Disk, Fs};
use konjac::heap::{Heap, INITIAL_HEAP_SIZE};
use konjac::intrinsics::{bcmp, memcmp, memcpy, memmove, memset, strlen};
use konjac::libc_shim::{
    abs, atoi, calloc, free, isalnum, isalpha, iscntrl, isdigit, islower, isprint, ispunct, isspace, isupper, isxdigit,
    labs, malloc, qsort, realloc, strtol, tolower, toupper, Rand,
};

fn volume() -> Fs {
    let mut sectors: Vec<Result<Vec<u8>, &'static str>> = vec![Ok(vec![0u8; 512]); 120];
    let boot = sectors[0].as_mut().unwrap();
    boot[12] = 0x02;
    boot[13] = 1;
    boot[14] = 1;
    boot[16] = 2;
    boot[17] = 32;
    boot[19] = 120;
    boot[22] = 2;
    boot[510] = 0x55;
    boot[511] = 0xAA;
    let mut fs = Fs::new(Disk { sectors });
    assert_eq!(init(&mut fs), Ok(()));
    fs
}

#[test]
fn memory_is_moved_and_compared() {
    let mut m = b"abcdefgh".to_vec();
    assert_eq!(memmove(&mut m, 2, 0, 4), 2);
    assert_eq!(m, b"ababcdgh".to_vec());
    assert_eq!(memcpy(&mut m, 6, 0, 2), 6);
    assert_eq!(m, b"ababcdab".to_vec());
    memset(&mut m, 0, 0x141, 2);
    assert_eq!(m, b"AAabcdab".to_vec());
    assert_eq!(memcmp(&m, 2, 6, 2), 0);
    assert_eq!(memcmp(&m, 0, 2, 2), 0x41 - 0x61);
    assert_eq!(bcmp(&m, 2, 6, 2), 0);
    m.push(0);
    assert_eq!(strlen(&m, 3), 5);
}

#[test]
fn blocks_are_allocated_and_resized() {
    let mut h = Heap::new(vec![0u64; INITIAL_HEAP_SIZE as usize / 8]);
    let a = malloc(&mut h, 10).unwrap();
    let b = calloc(&mut h, 4, 4).unwrap();
    assert_ne!(a, b);
    let c = realloc(&mut h, Some(a), 100).unwrap();
    assert_ne!(c, a);
    free(&mut h, b);
    free(&mut h, c);
    assert_eq!(calloc(&mut h, u64::MAX, 2), None);
    assert_eq!(malloc(&mut h, u64::MAX), None);
}

#[test]
fn characters_have_their_classes() {
    assert!(isalpha(b'q' as i32) != 0 && isalpha(b'1' as i32) == 0);
    assert!(isdigit(b'7' as i32) != 0 && isdigit(b'a' as i32) == 0);
    assert!(isalnum(b'7' as i32) != 0 && isalnum(b'_' as i32) == 0);
    assert!(isspace(b'\t' as i32) != 0 && isspace(b'x' as i32) == 0);
    assert!(isupper(b'Q' as i32) != 0 && islower(b'Q' as i32) == 0);
    assert!(isxdigit(b'f' as i32) != 0 && isxdigit(b'g' as i32) == 0);
    assert!(ispunct(b'!' as i32) != 0 && ispunct(b'a' as i32) == 0);
    assert!(iscntrl(7) != 0 && isprint(7) == 0 && isprint(b' ' as i32) != 0);
    assert_eq!((toupper(b'a' as i32), tolower(b'A' as i32), toupper(b'!' as i32)), (65, 97, 33));
}

#[test]
fn numbers_are_parsed_and_bounded() {
    assert_eq!((abs(-5), labs(-7)), (5, 7));
    assert_eq!(strtol(b"  -12x\0"), (-12, 5));
    assert_eq!(strtol(b"abc\0").1, 0);
    assert_eq!(atoi(b"42\0"), 42);
}

#[test]
fn sorting_keeps_every_item() {
    let mut v = vec![5i32, 1, 4, 1, 3];
    qsort(&mut v, |a: i32, b: i32| if a < b { -1 } else if a > b { 1 } else { 0 });
    assert_eq!(v, vec![1, 1, 3, 4, 5]);
    let mut pairs = vec![(1, 'b'), (0, 'x'), (1, 'a'), (0, 'y')];
    qsort(&mut pairs, |a: (i32, char), b: (i32, char)| a.0 - b.0);
    assert_eq!(pairs, vec![(0, 'x'), (0, 'y'), (1, 'b'), (1, 'a')]);
}

#[test]
fn random_numbers_repeat_with_the_seed() {
    let mut r = Rand::new();
    assert_eq!((r.rand(), r.rand()), (21468, 9988));
    r.srand(7);
    let a = (r.rand(), r.rand());
    r.srand(7);
    assert_eq!((r.rand(), r.rand()), a);
    assert!(a.0 >= 0 && a.0 != a.1);
}

#[test]
fn a_file_is_written_sought_and_read() {
    let mut fs = volume();
    let mut f = fopen(&mut fs, b"A.TXT", b"w+").unwrap();
    assert_eq!(f.fwrite(1, 5, b"hello").0, 5);
    assert_eq!(f.fseek(1, 0), 0);
    assert_eq!(f.fread(2, 9), (2, b"ello".to_vec()));
    assert_eq!(f.ftell(), 5);
    assert!(f.feof());
    f.rewind();
    assert_eq!(f.fgets(3), Some(b"he".to_vec()));
    assert_eq!(f.fputs(b"LLO").0, 0);
    assert_eq!(f.fseek(-9, 0), -1);
    assert_eq!(f.fclose(&mut fs), 0);
    assert_eq!(read_file(&mut fs, b"A.TXT"), Ok(b"heLLO".to_vec()));
}

#[test]
fn modes_decide_what_is_opened() {
    let mut fs = volume();
    assert!(fopen(&mut fs, b"NONE", b"r").is_none());
    assert!(fopen(&mut fs, b"NONE", b"").is_none());
    assert_eq!(write_file(&mut fs, b"A", b"one"), Ok(()));
    let mut f = fopen(&mut fs, b"A", b"a").unwrap();
    assert_eq!(f.fwrite(1, 3, b"two").0, 3);
    assert_eq!(f.fclose(&mut fs), 0);
    assert_eq!(read_file(&mut fs, b"A"), Ok(b"onetwo".to_vec()));
    let mut r = fopen(&mut fs, b"A", b"r").unwrap();
    assert_eq!(r.fwrite(1, 3, b"xxx").0, 0);
}

#[test]
fn console_output_is_handed_back() {
    let mut f = CFile::to_console();
    assert_eq!(f.fwrite(1, 3, b"abc"), (3, b"abc".to_vec()));
    assert_eq!(bytes_to_string_lossy(b"a\xFFb"), "a\u{FFFD}b".as_bytes().to_vec());
}
