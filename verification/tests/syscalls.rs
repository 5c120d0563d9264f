use konjac::fat16::{init, read_file, write_file, Disk, Fs};
use konjac::idt::{exception_handler, Exception, Outcome};
use konjac::kernel::{grow_heap, handle_page_fault, FaultAction, Kernel, PfFrame};
use konjac::limine::{MemmapEntry, MemmapKind};
use konjac::linux_abi::{encode, Next, Reply};
use konjac::linux_syscall::{linux_syscall_handler, mkdir_answer, want, Args, Want};
use konjac::linux_tasks::{wait_answer, Machine};
use konjac::order::{give_way, kernel_in_order, SPACE_LOST};
use konjac::paging::{new_address_space, translate, Memory};
use konjac::pmm::{alloc_frame, Pmm};
use konjac::syscall::{syscall_handler, want_len};
use konjac::task::{kill, set_sigaction, spawn_user, TaskState, TaskTable, WaitState, USER_HEAP_BASE};
use konjac::vm::Regions;
use konjac::volume::DirLocation;

fn volume() -> Fs {
    let mut sectors: Vec<Result<Vec<u8>, &'static str>> = vec![Ok(vec![0u8; 512]); 120];
    let boot = sectors[0].as_mut().unwrap();
    boot[12] = 0x02;
    boot[13] = 1;
    boot[14] = 1;
    boot[16] = 2;
    boot[17] = 32;
    boot[19] = 120;
    boot[22] = 2;
    boot[510] = 0x55;
    boot[511] = 0xAA;
    let mut fs = Fs::new(Disk { sectors });
    assert_eq!(init(&mut fs), Ok(()));
    fs
}

fn kernel() -> Kernel {
    let mut pmm = Pmm::new();
    konjac::pmm::init(&mut pmm, 0, &[MemmapEntry { base: 0, length: 128 * 4096, kind: MemmapKind::Usable }]);
    let cr3 = alloc_frame(&mut pmm).unwrap();
    let mem = Memory { ram: vec![0u64; 128 * 512], pmm, cr3, nx: true };
    let mut tasks = TaskTable::new(0x1000, 0x2000);
    konjac::task::init(&mut tasks, &mem);
    Kernel { mem, regions: Regions::new(), tasks, fs: volume() }
}

fn machine() -> Machine {
    Machine { frame: [0; 16], now: 150, resume: 0x99, stack: 0x10_0000, random: true }
}

fn args(a0: u64, a1: u64, a2: u64, a3: u64) -> Args {
    Args { a0, a1, a2, a3, a4: 0 }
}

fn call(k: &mut Kernel, number: u64, a: Args, pieces: Vec<Vec<u8>>) -> Reply {
    linux_syscall_handler(k, number, a, &machine(), &pieces)
}

const O_CREAT: u64 = 0x40;
const O_WRONLY: u64 = 1;

#[test]
fn text_is_written_to_the_console() {
    let mut k = kernel();
    let a = args(1, 0x5000, 5, 0);
    assert!(matches!(want(1, a, 0), Want::Ranges(v) if v == vec![(0x5000, 5)]));
    let r = call(&mut k, 1, args(1, 0x5000, 5, 0), vec![b"hello".to_vec()]);
    assert_eq!((r.value, r.output), (5, b"hello".to_vec()));
    let r = call(&mut k, 1, args(9, 0x5000, 5, 0), vec![b"hello".to_vec()]);
    assert_eq!(r.value, encode(-9));
}

#[test]
fn files_are_opened_read_and_closed() {
    let mut k = kernel();
    assert_eq!(write_file(&mut k.fs, b"A.TXT", b"contents"), Ok(()));
    assert!(matches!(want(2, args(0x7000, 0, 0, 0), 0), Want::Text(0x7000)));
    let fd = call(&mut k, 2, args(0x7000, 0, 0, 0), vec![b"a.txt\0".to_vec()]).value;
    assert_eq!(fd, 3);
    let r = call(&mut k, 0, args(fd, 0x6000, 4, 0), vec![]);
    assert_eq!((r.value, r.writes), (4, vec![(0x6000, b"cont".to_vec())]));
    let r = call(&mut k, 8, args(fd, 1, 0, 0), vec![]);
    assert_eq!(r.value, 1);
    let r = call(&mut k, 17, args(fd, 0x6000, 3, 5), vec![]);
    assert_eq!(r.writes, vec![(0x6000, b"nts".to_vec())]);
    assert_eq!(call(&mut k, 3, args(fd, 0, 0, 0), vec![]).value, 0);
    assert_eq!(call(&mut k, 3, args(fd, 0, 0, 0), vec![]).value, encode(-9));
    let missing = call(&mut k, 2, args(0x7000, 0, 0, 0), vec![b"none\0".to_vec()]);
    assert_eq!(missing.value, encode(-2));
}

#[test]
fn a_new_file_is_kept_when_it_is_closed() {
    let mut k = kernel();
    let fd = call(&mut k, 2, args(0x7000, O_CREAT | O_WRONLY, 0, 0), vec![b"new\0".to_vec()]).value;
    assert_eq!(fd, 3);
    assert_eq!(call(&mut k, 1, args(fd, 0x5000, 3, 0), vec![b"abc".to_vec()]).value, 3);
    assert_eq!(call(&mut k, 3, args(fd, 0, 0, 0), vec![]).value, 0);
    assert_eq!(read_file(&mut k.fs, b"NEW"), Ok(b"abc".to_vec()));
    assert_eq!(call(&mut k, 87, args(0x7000, 0, 0, 0), vec![b"new\0".to_vec()]).value, 0);
    assert!(read_file(&mut k.fs, b"NEW").is_err());
    assert_eq!(call(&mut k, 87, args(0x7000, 0, 0, 0), vec![b"new\0".to_vec()]).value, encode(-2));
}

#[test]
fn directories_are_left_to_the_volume() {
    let mut k = kernel();
    let r = call(&mut k, 83, args(0x7000, 0, 0, 0), vec![b"dir\0".to_vec()]);
    assert!(matches!(r.next, Next::MakeDirectory(p) if p == b"dir".to_vec()));
    assert_eq!(mkdir_answer(Ok(())), 0);
    assert!(mkdir_answer(Err("no such file or directory")) != 0);
}

#[test]
fn the_working_directory_is_told() {
    let mut k = kernel();
    let r = call(&mut k, 79, args(0x6000, 10, 0, 0), vec![]);
    assert_eq!(r.writes, vec![(0x6000, b"/\0".to_vec())]);
    assert_eq!(call(&mut k, 79, args(0x6000, 1, 0, 0), vec![]).value, encode(-34));
}

#[test]
fn programs_learn_who_they_are() {
    let mut k = kernel();
    assert_eq!(call(&mut k, 39, args(0, 0, 0, 0), vec![]).value, 0);
    for number in [102u64, 104, 107, 108] {
        assert_eq!(call(&mut k, number, args(0, 0, 0, 0), vec![]).value, 0);
    }
    let r = call(&mut k, 63, args(0x6000, 0, 0, 0), vec![]);
    assert_eq!(r.value, 0);
    assert_eq!(r.writes[0].1.len(), 390);
    assert_eq!(call(&mut k, 9999, args(0, 0, 0, 0), vec![]).value, encode(-38));
}

#[test]
fn the_clock_is_read() {
    let mut k = kernel();
    let r = call(&mut k, 228, args(1, 0x6000, 0, 0), vec![]);
    let mut expected = vec![1u8, 0, 0, 0, 0, 0, 0, 0];
    expected.extend_from_slice(&500_000_000u64.to_le_bytes());
    assert_eq!(r.writes, vec![(0x6000, expected)]);
    assert_eq!(call(&mut k, 228, args(99, 0x6000, 0, 0), vec![]).value, encode(-22));
}

#[test]
fn threads_wait_and_are_woken() {
    let mut k = kernel();
    let pieces = vec![7u32.to_le_bytes().to_vec()];
    let r = call(&mut k, 202, args(0x8000, 0, 6, 0), pieces.clone());
    assert_eq!(r.value, encode(-11));
    let r = call(&mut k, 202, args(0x8000, 0, 7, 0), pieces);
    assert!(matches!(r.next, Next::Wait));
    assert_eq!(wait_answer(WaitState::Expired), Some(encode(-110)));
    assert_eq!(wait_answer(WaitState::Woken), Some(0));
    assert_eq!(wait_answer(WaitState::Waiting), None);
    let r = call(&mut k, 202, args(0x8000, 1, 5, 0), vec![]);
    assert_eq!(r.value, 1);
}

#[test]
fn random_bytes_are_passed_on() {
    let mut k = kernel();
    assert!(matches!(want(318, args(0x6000, 4, 0, 0), 0), Want::Random(4)));
    let r = call(&mut k, 318, args(0x6000, 4, 0, 0), vec![vec![1, 2, 3, 4]]);
    assert_eq!((r.value, r.writes), (4, vec![(0x6000, vec![1, 2, 3, 4])]));
}

#[test]
fn memory_is_mapped_for_programs() {
    let mut k = kernel();
    let r = call(&mut k, 9, Args { a0: 0, a1: 0x2000, a2: 3, a3: 0x22, a4: u64::MAX }, vec![]);
    assert_eq!(r.value, 0x70_0000_0000);
    assert_eq!(call(&mut k, 11, args(0x70_0000_0000, 0x1000, 0, 0), vec![]).value, 0);
    assert_eq!(call(&mut k, 10, args(0x70_0000_1000, 0x1000, 1, 0), vec![]).value, 0);
    assert_eq!(call(&mut k, 10, args(0x70_0000_0000, 0x1000, 1, 0), vec![]).value, encode(-12));
}

#[test]
fn the_heap_grows_page_by_page() {
    let mut k = kernel();
    let pml4 = k.mem.cr3;
    assert_eq!(grow_heap(&mut k, USER_HEAP_BASE + 5000), USER_HEAP_BASE + 8192);
    assert!(translate(&k.mem, pml4, USER_HEAP_BASE).is_some());
    assert!(translate(&k.mem, pml4, USER_HEAP_BASE + 4096).is_some());
    assert!(translate(&k.mem, pml4, USER_HEAP_BASE + 8192).is_none());
}

#[test]
fn programs_end() {
    let mut k = kernel();
    let r = call(&mut k, 60, args(3, 0, 0, 0), vec![]);
    assert!(matches!(r.next, Next::Exit));
    assert!(k.tasks.slots[0].as_ref().unwrap().state == TaskState::Terminated);
}

#[test]
fn simple_programs_have_their_own_calls() {
    let mut k = kernel();
    assert_eq!(want_len(1, 5), 5);
    let r = syscall_handler(&mut k, 1, 0x5000, 5, 0, b"hello", 0x10_0000);
    assert_eq!((r.value, r.output), (0, b"hello".to_vec()));
    assert_eq!(write_file(&mut k.fs, b"A", b"abc"), Ok(()));
    let fd = syscall_handler(&mut k, 2, 0x5000, 1, 0, b"a", 0x10_0000).value;
    let r = syscall_handler(&mut k, 3, fd, 0x6000, 8, b"", 0x10_0000);
    assert_eq!((r.value, r.writes), (3, vec![(0x6000, b"abc".to_vec())]));
    assert_eq!(syscall_handler(&mut k, 4, fd, 0, 0, b"", 0x10_0000).value, 0);
    assert_eq!(syscall_handler(&mut k, 4, fd, 0, 0, b"", 0x10_0000).value, u64::MAX);
    assert_eq!(syscall_handler(&mut k, 77, 0, 0, 0, b"", 0x10_0000).value, u64::MAX);
}

fn frame() -> PfFrame {
    PfFrame {
        r15: 0,
        r14: 0,
        r13: 0,
        r12: 0,
        r11: 0,
        r10: 0,
        r9: 0,
        r8: 0,
        rbp: 0,
        rdi: 1,
        rsi: 2,
        rdx: 3,
        rcx: 0,
        rbx: 0,
        rax: 0,
        error_code: 6,
        rip: 0x40_0000,
        cs: 0x2B,
        rflags: 0x202,
        rsp: 0x50_0000,
        ss: 0x33,
    }
}

#[test]
fn faults_are_mended_or_signalled() {
    let mut k = kernel();
    let mut f = frame();
    assert!(matches!(handle_page_fault(&mut k, &mut f, 0x5000), FaultAction::Unhandled));
    assert_eq!(call(&mut k, 9, Args { a0: 0x5000, a1: 0x1000, a2: 3, a3: 0x32, a4: u64::MAX }, vec![]).value, 0x5000);
    assert!(matches!(handle_page_fault(&mut k, &mut f, 0x5000), FaultAction::Retry));
    set_sigaction(&mut k.tasks, 11, 0x7777, 0x0400_0000, 0x8888);
    assert!(matches!(handle_page_fault(&mut k, &mut f, 0x9000), FaultAction::Signal(_, 0x8888)));
    assert_eq!((f.rip, f.rdi), (0x7777, 11));
}

#[test]
fn a_program_that_faults_is_killed() {
    let mut k = kernel();
    assert_eq!(spawn_user(&mut k.tasks, "u", b"/u".to_vec(), 1, 2, 0x9000, 0x10_0000), Some(1));
    k.tasks.current = 1;
    let e = Exception {
        vector: 13,
        error_code: 0,
        rip: 0x40_0000,
        cs: 0x2B,
        regs: [0; 15],
        user_rsp: 0,
        cr2: 0,
    };
    let (text, outcome) = exception_handler(&mut k, &e);
    assert!(matches!(outcome, Outcome::Killed(None)));
    assert!(String::from_utf8(text).unwrap().contains("General Protection Fault"));
    assert!(k.tasks.slots[1].as_ref().unwrap().state == TaskState::Terminated);
    let (_, outcome) = exception_handler(&mut k, &Exception { cs: 0x08, ..e });
    assert!(matches!(outcome, Outcome::Halt));
}

#[test]
fn sleeps_are_rounded_up() {
    let mut k = kernel();
    let mut time = 0u64.to_le_bytes().to_vec();
    time.extend_from_slice(&1u64.to_le_bytes());
    let r = call(&mut k, 35, args(0x6000, 0, 0, 0), vec![time]);
    assert!(matches!(r.next, Next::Sleep));
    assert_eq!(k.tasks.slots[0].as_ref().unwrap().wait_deadline, Some(152));
}

#[test]
fn limits_and_sizes_are_told() {
    let mut k = kernel();
    let r = call(&mut k, 302, args(0, 7, 0, 0x6000), vec![]);
    let mut expected = 16u64.to_le_bytes().to_vec();
    expected.extend_from_slice(&16u64.to_le_bytes());
    assert_eq!((r.value, r.writes), (0, vec![(0x6000, expected)]));
    assert_eq!(call(&mut k, 302, args(0, 7, 0x5000, 0x6000), vec![]).value, encode(-38));
    let r = call(&mut k, 99, args(0x6000, 0, 0, 0), vec![]);
    let info = &r.writes[0].1;
    assert_eq!(info.len(), 112);
    assert_eq!(info[0..8], 1u64.to_le_bytes());
    assert_eq!(info[32..40], (128u64 * 4096).to_le_bytes());
    assert_eq!(info[104..108], 1u32.to_le_bytes());
    assert_eq!(write_file(&mut k.fs, b"A.TXT", b"contents"), Ok(()));
    let fd = call(&mut k, 2, args(0x7000, 0, 0, 0), vec![b"a.txt\0".to_vec()]).value;
    let r = call(&mut k, 5, args(fd, 0x6000, 0, 0), vec![]);
    assert_eq!(r.writes[0].1[48..56], 8u64.to_le_bytes());
}

#[test]
fn the_kernels_state_is_tested() {
    assert!(kernel_in_order(&kernel()));
    let broken: Vec<fn(&mut Kernel)> = vec![
        |k| k.mem.cr3 = 0x7F_F000,
        |k| k.mem.pmm = Pmm::new(),
        |k| k.regions.table.clear(),
        |k| k.tasks.current = 3,
        |k| k.tasks.files[2].entries.clear(),
        |k| k.fs.disk.sectors[7] = Ok(vec![0; 100]),
        |k| k.fs.location = DirLocation::Cluster(9),
    ];
    for change in broken {
        let mut k = kernel();
        change(&mut k);
        assert!(!kernel_in_order(&k));
    }
}

#[test]
fn tasks_give_way_only_to_spaces_in_order() {
    let mut k = kernel();
    assert!(matches!(give_way(&mut k, 1), Ok(None)));
    let space = new_address_space(&mut k.mem);
    assert_eq!(spawn_user(&mut k.tasks, "u", vec![], 0x40_0000, 0x50_0000, space, 0x10_0000), Some(1));
    assert!(matches!(give_way(&mut k, 2), Ok(Some(s)) if s.to == 1 && s.cr3 == Some(space)));
    assert!(kernel_in_order(&k));
    assert!(matches!(give_way(&mut k, 3), Ok(Some(s)) if s.to == 0));
    // The task's root links itself.
    k.mem.ram[(space / 8) as usize] = space | 1;
    assert!(kernel_in_order(&k));
    assert!(matches!(give_way(&mut k, 4), Err(SPACE_LOST)));
    // A task that has ended, with a space that reaches beyond memory.
    let mut k = kernel();
    assert_eq!(spawn_user(&mut k.tasks, "u", vec![], 0x40_0000, 0x50_0000, 0x7F_F000, 0x10_0000), Some(1));
    assert!(kill(&mut k.tasks, 1));
    assert!(matches!(give_way(&mut k, 1), Err(SPACE_LOST)));
    assert!(k.tasks.slots[1].is_some());
}
