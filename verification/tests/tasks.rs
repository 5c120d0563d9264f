use konjac::fat16::{Disk, Fs};
use konjac::limine::{MemmapEntry, MemmapKind};
use konjac::paging::Memory;
use konjac::pmm::{alloc_frame, Pmm};
use konjac::task::{
    begin_signal_delivery, current_cr3, current_exe_path, current_id, end_signal_delivery, exit_current, fs_base,
    futex_wait, futex_wake, hash_path, heap_end, init, is_delivering_signal, kill, kill_group, list, open_file_len,
    read_open_file, schedule, set_fs_base, set_heap_end, set_sigaction, sigaction, sleep_until, spawn, spawn_clone_raw,
    spawn_thread, spawn_user, spawn_with_stack, truncate_open_file, wait_step, with_current_open_files, write_open_file, yield_now, FileBacking,
    OpenExtra, OpenFile, SavedContext, TaskState, TaskTable, WaitState, USER_HEAP_BASE,
};
use konjac::vm::Regions;

struct World {
    mem: Memory,
    regions: Regions,
    tasks: TaskTable,
}

fn world() -> World {
    let mut pmm = Pmm::new();
    konjac::pmm::init(&mut pmm, 0, &[MemmapEntry { base: 0, length: 64 * 4096, kind: MemmapKind::Usable }]);
    let cr3 = alloc_frame(&mut pmm).unwrap();
    let mem = Memory { ram: vec![0u64; 64 * 512], pmm, cr3, nx: true };
    let mut tasks = TaskTable::new(0x1000, 0x2000);
    init(&mut tasks, &mem);
    World { mem, regions: Regions::new(), tasks }
}

fn step(w: &mut World, now: u64) -> Option<usize> {
    schedule(&mut w.tasks, &mut w.regions, &mut w.mem, now).map(|s| s.to)
}

fn context() -> SavedContext {
    SavedContext {
        rax: 1,
        rbx: 2,
        rcx: 3,
        rdx: 4,
        rsi: 5,
        rdi: 6,
        rbp: 7,
        r8: 8,
        r9: 9,
        r10: 10,
        r11: 11,
        r12: 12,
        r13: 13,
        r14: 14,
        r15: 15,
        rip: 16,
        cs: 0x2B,
        ss: 0x33,
        rsp: 17,
        rflags: 18,
    }
}

#[test]
fn the_first_task_is_the_shell() {
    let w = world();
    assert_eq!(current_id(&w.tasks), 0);
    let rows = list(&w.tasks);
    assert_eq!(rows.len(), 1);
    assert_eq!(rows[0].1, "shell");
    assert_eq!(rows[0].2.label(), "running");
    assert!(rows[0].4);
}

#[test]
fn tasks_run_in_turn() {
    let mut w = world();
    assert_eq!(spawn(&mut w.tasks, "a", 0x11, 0x10_0000), Some(1));
    assert_eq!(spawn_with_stack(&mut w.tasks, "b", 0x22, 0x1_0001, 0x20_0000), Some(2));
    assert_eq!(w.tasks.slots[2].as_ref().unwrap().kernel_stack_top, 0x21_0010);
    assert_eq!(w.tasks.slots[1].as_ref().unwrap().stack, vec![0, 0, 0, 0x11, 0, 0, 0x1000]);
    assert_eq!(step(&mut w, 1), Some(1));
    assert_eq!(step(&mut w, 2), Some(2));
    assert_eq!(step(&mut w, 3), Some(0));
    assert_eq!(list(&w.tasks)[1].3, 1);
    let running = list(&w.tasks).iter().filter(|r| r.2 == TaskState::Running).count();
    assert_eq!(running, 1);
    let r = yield_now(&mut w.tasks, &mut w.regions, &mut w.mem, 4).unwrap();
    assert_eq!((r.from, r.to), (0, 1));
}

#[test]
fn ended_tasks_leave_their_slots() {
    let mut w = world();
    assert_eq!(spawn(&mut w.tasks, "a", 0x11, 0x10_0000), Some(1));
    assert!(kill(&mut w.tasks, 1));
    assert!(!kill(&mut w.tasks, 1));
    assert!(!kill(&mut w.tasks, 7));
    assert_eq!(step(&mut w, 1), None);
    assert!(w.tasks.slots[1].is_none());
    assert_eq!(spawn(&mut w.tasks, "b", 0x11, 0x10_0000), Some(2));
    assert_eq!(step(&mut w, 2), Some(1));
    assert_eq!(exit_current(&mut w.tasks), None);
    assert_eq!(step(&mut w, 3), Some(0));
}

#[test]
fn groups_end_together() {
    let mut w = world();
    assert_eq!(spawn_user(&mut w.tasks, "u", b"/u".to_vec(), 1, 2, 0x9000, 0x10_0000), Some(1));
    assert_eq!(step(&mut w, 1), Some(1));
    assert_eq!(current_cr3(&w.tasks), 0x9000);
    assert_eq!(current_exe_path(&w.tasks), b"/u".to_vec());
    assert_eq!(spawn_thread(&mut w.tasks, "t", 3, 4, 0x20_0000), Some(2));
    kill_group(&mut w.tasks, 0x9000, 1);
    assert!(w.tasks.slots[2].as_ref().unwrap().state == TaskState::Terminated);
    assert!(w.tasks.slots[1].as_ref().unwrap().state == TaskState::Running);
    assert!(w.tasks.slots[0].as_ref().unwrap().state != TaskState::Terminated);
}

#[test]
fn the_table_has_room_for_sixteen() {
    let mut w = world();
    for i in 1..16u64 {
        assert_eq!(spawn(&mut w.tasks, "x", 1, 0x10_0000), Some(i));
    }
    assert_eq!(spawn(&mut w.tasks, "x", 1, 0x10_0000), None);
}

#[test]
fn a_waiter_is_woken_or_times_out() {
    let mut w = world();
    assert_eq!(spawn(&mut w.tasks, "a", 1, 0x10_0000), Some(1));
    assert!(!futex_wait(&mut w.tasks, 0x5000, Some(100), 10));
    assert_eq!(step(&mut w, 11), Some(1));
    assert_eq!(step(&mut w, 12), None);
    assert_eq!(futex_wake(&mut w.tasks, 0x6000, 1), 0);
    assert_eq!(futex_wake(&mut w.tasks, 0x5000, 1), 1);
    assert_eq!(step(&mut w, 13), Some(0));
    assert_eq!(wait_step(&mut w.tasks), WaitState::Woken);
    assert!(!sleep_until(&mut w.tasks, 50, 13));
    assert_eq!(step(&mut w, 14), Some(1));
    assert_eq!(step(&mut w, 49), None);
    assert_eq!(step(&mut w, 50), Some(0));
    assert_eq!(wait_step(&mut w.tasks), WaitState::Expired);
    assert_eq!(wait_step(&mut w.tasks), WaitState::Woken);
    assert!(sleep_until(&mut w.tasks, 50, 50));
}

#[test]
fn a_clone_shares_files_and_clears_its_word() {
    let mut w = world();
    let frame = [7u64; 16];
    let id = spawn_clone_raw(
        &mut w.tasks,
        "c",
        0x77,
        frame,
        0x9000,
        1,
        2,
        Some(0x8000),
        b"/c".to_vec(),
        0x10_0000,
    );
    assert_eq!(id, Some(1));
    assert_eq!(w.tasks.slots[1].as_ref().unwrap().files, w.tasks.slots[0].as_ref().unwrap().files);
    assert_eq!(w.tasks.slots[1].as_ref().unwrap().stack.len(), 23);
    assert!(!futex_wait(&mut w.tasks, 0x8000, None, 1));
    assert_eq!(step(&mut w, 2), Some(1));
    assert_eq!(exit_current(&mut w.tasks), Some(0x8000));
    assert_eq!(step(&mut w, 3), Some(0));
}

#[test]
fn a_signal_is_delivered_once_and_returned_from() {
    let mut w = world();
    assert_eq!(sigaction(&w.tasks, 11), (0, 0, 0));
    set_sigaction(&mut w.tasks, 11, 0x100, 4, 0x200);
    assert_eq!(sigaction(&w.tasks, 11), (0x100, 4, 0x200));
    assert!(!is_delivering_signal(&w.tasks, 11));
    assert!(begin_signal_delivery(&mut w.tasks, 11, context()));
    assert!(is_delivering_signal(&w.tasks, 11));
    assert!(!begin_signal_delivery(&mut w.tasks, 11, context()));
    assert_eq!(end_signal_delivery(&mut w.tasks).map(|c| c.rip), Some(16));
    assert!(end_signal_delivery(&mut w.tasks).is_none());
}

#[test]
fn settings_belong_to_the_running_task() {
    let mut w = world();
    assert_eq!(heap_end(&w.tasks), USER_HEAP_BASE);
    set_heap_end(&mut w.tasks, USER_HEAP_BASE + 5);
    set_fs_base(&mut w.tasks, 99);
    assert_eq!((heap_end(&w.tasks), fs_base(&w.tasks)), (USER_HEAP_BASE + 5, 99));
}

#[test]
fn files_in_memory_are_written_and_read() {
    let mut w = world();
    let mut fs = Fs::new(Disk { sectors: vec![] });
    let file = OpenFile {
        data: FileBacking::Static(b""),
        pos: 0,
        ino: hash_path(b"/x"),
        extra: Some(OpenExtra::Writable(b"/x".to_vec(), vec![])),
    };
    assert_eq!(file.ino, 0x07D6_4E07_B49C_AEB2);
    w.tasks.files[0].entries[3] = Some(file);
    assert_eq!(write_open_file(&mut w.tasks, 3, b"hello", None), Ok(5));
    assert_eq!(write_open_file(&mut w.tasks, 3, b"J", Some(0)), Ok(1));
    let mut back = vec![0u8; 8];
    assert_eq!(read_open_file(&mut w.tasks, &mut fs, 3, &mut back, Some(0)), Ok(5));
    assert_eq!(&back[..5], b"Jello");
    assert_eq!(truncate_open_file(&mut w.tasks, 3, 2), Ok(()));
    assert_eq!(open_file_len(&w.tasks, 3).map(|x| x.0), Some(2));
    assert_eq!(read_open_file(&mut w.tasks, &mut fs, 9, &mut back, None), Err(-9));
    assert_eq!(write_open_file(&mut w.tasks, 9, b"x", None), Err(-9));
    let text = OpenFile { data: FileBacking::Static(b"fixed"), pos: 1, ino: 1, extra: None };
    w.tasks.files[0].entries[4] = Some(text);
    assert_eq!(read_open_file(&mut w.tasks, &mut fs, 4, &mut back, None), Ok(4));
    assert_eq!(&back[..4], b"ixed");
}

#[test]
fn the_table_of_files_is_handed_over() {
    let mut w = world();
    let file = OpenFile { data: FileBacking::Static(b"abc"), pos: 0, ino: 1, extra: None };
    let slot = with_current_open_files(&mut w.tasks, |table| {
        let free = table.iter().position(|f| f.is_none());
        table[2] = Some(file);
        free
    });
    assert_eq!(slot, Some(0));
    assert_eq!(with_current_open_files(&mut w.tasks, |table| table[2].is_some()), true);
    assert_eq!(open_file_len(&w.tasks, 2).map(|x| x.0), Some(3));
}

#[test]
fn an_address_space_goes_with_its_last_task() {
    let mut w = world();
    let before = konjac::pmm::stats(&w.mem.pmm).1;
    let space = konjac::paging::new_address_space(&mut w.mem);
    assert_eq!(spawn_user(&mut w.tasks, "u", b"/u".to_vec(), 1, 2, space, 0x10_0000), Some(1));
    assert_eq!(step(&mut w, 1), Some(1));
    assert_eq!(spawn_thread(&mut w.tasks, "t", 3, 4, 0x20_0000), Some(2));
    assert!(kill(&mut w.tasks, 2));
    assert_eq!(step(&mut w, 2), Some(0));
    assert!(w.tasks.slots[2].is_none());
    assert_eq!(konjac::pmm::stats(&w.mem.pmm).1, before - 1);
    assert!(kill(&mut w.tasks, 1));
    assert_eq!(step(&mut w, 3), None);
    assert_eq!(konjac::pmm::stats(&w.mem.pmm).1, before);
}

#[test]
fn a_wait_goes_on_where_nothing_else_can_run() {
    let mut w = world();
    assert!(!futex_wait(&mut w.tasks, 0x5000, Some(20), 10));
    assert_eq!(step(&mut w, 11), None);
    assert_eq!(wait_step(&mut w.tasks), WaitState::Waiting);
    assert_eq!(step(&mut w, 19), None);
    assert_eq!(wait_step(&mut w.tasks), WaitState::Waiting);
    assert_eq!(step(&mut w, 20), None);
    assert_eq!(wait_step(&mut w.tasks), WaitState::Expired);
    assert!(!futex_wait(&mut w.tasks, 0x5000, None, 20));
    assert_eq!(step(&mut w, u64::MAX), None);
    assert_eq!(wait_step(&mut w.tasks), WaitState::Waiting);
    assert_eq!(futex_wake(&mut w.tasks, 0x5000, 1), 1);
    assert_eq!(wait_step(&mut w.tasks), WaitState::Woken);
}

#[test]
fn spawning_adds_one_row() {
    let mut w = world();
    let before = list(&w.tasks);
    assert_eq!(spawn(&mut w.tasks, "a", 1, 0x10_0000), Some(1));
    let after = list(&w.tasks);
    assert_eq!(after.len(), before.len() + 1);
    assert_eq!((after[1].0, after[1].1, after[1].3, after[1].4), (1, "a", 0, false));
    assert!(kill(&mut w.tasks, 1));
    assert_eq!(step(&mut w, 1), None);
    assert_eq!(spawn(&mut w.tasks, "b", 1, 0x10_0000), Some(2));
    assert!(!futex_wait(&mut w.tasks, 0x5000, None, 1));
    let rows = list(&w.tasks);
    assert_eq!(rows.iter().filter(|r| r.4).count(), 1);
    assert!(rows.iter().filter(|r| r.2 == TaskState::Running).count() <= 1);
}

#[test]
fn a_yield_says_all_that_a_switch_takes() {
    let mut w = world();
    let kernel = w.mem.cr3;
    assert_eq!(spawn_user(&mut w.tasks, "u", vec![], 0x40_0000, 0x50_0000, 0x7000, 0x10_0000), Some(1));
    w.tasks.slots[1].as_mut().unwrap().fs_base = 0x1234;
    let rsp = w.tasks.slots[1].as_ref().unwrap().saved_rsp;
    let r = yield_now(&mut w.tasks, &mut w.regions, &mut w.mem, 1).unwrap();
    assert_eq!((r.from, r.to, r.rsp, r.fs_base), (0, 1, rsp, 0x1234));
    assert_eq!((r.kernel_stack, r.cr3), (Some(0x10_8000), Some(0x7000)));
    assert_eq!((w.mem.cr3, w.mem.nx), (0x7000, true));
    let r = yield_now(&mut w.tasks, &mut w.regions, &mut w.mem, 2).unwrap();
    assert_eq!((r.from, r.to, r.kernel_stack, r.cr3), (1, 0, None, Some(kernel)));
    assert_eq!(w.mem.cr3, kernel);
}
