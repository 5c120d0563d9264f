use konjac::apex::{authenticate, is_authenticated, Apex, Verdict, CACHE_TICKS};
use konjac::commands::{
    cdemo_done, cio_done, commands, find, konjac_report, perform, shown_range, spawn_demo_tasks, Action, Readings, System,
    Verb,
};
use konjac::fat16::{init, read_file, write_file, Disk, Fs};
use konjac::kernel::Kernel;
use konjac::keyboard::{read_doom_event, Keyboard};
use konjac::limine::{MemmapEntry, MemmapKind};
use konjac::order::system_in_order;
use konjac::paging::Memory;
use konjac::pmm::Pmm;
use konjac::sha256::sha256_hex;
use konjac::shell::{greeting, run_command, LineBuffer, Shell};
use konjac::task::{list, TaskTable};
use konjac::vm::Regions;

fn blank() -> Vec<Result<Vec<u8>, &'static str>> {
    let mut sectors: Vec<Result<Vec<u8>, &'static str>> = vec![Ok(vec![0u8; 512]); 120];
    let boot = sectors[0].as_mut().unwrap();
    boot[12] = 0x02;
    boot[13] = 1;
    boot[14] = 1;
    boot[16] = 2;
    boot[17] = 32;
    boot[19] = 120;
    boot[22] = 2;
    boot[510] = 0x55;
    boot[511] = 0xAA;
    sectors
}

fn system() -> System {
    let mut fs = Fs::new(Disk { sectors: blank() });
    assert_eq!(init(&mut fs), Ok(()));
    let mut pmm = Pmm::new();
    let map = [MemmapEntry { base: 0, length: 0x40_0000, kind: MemmapKind::Usable }];
    konjac::pmm::init(&mut pmm, 0, &map);
    let mut mem = Memory { ram: vec![0u64; 1024 * 512], pmm, cr3: 0, nx: true };
    mem.cr3 = konjac::pmm::alloc_frame(&mut mem.pmm).unwrap();
    let mut tasks = TaskTable::new(0x1000, 0x2000);
    konjac::task::init(&mut tasks, &mem);
    System {
        kernel: Kernel { mem, regions: Regions::new(), tasks, fs },
        keyboard: Keyboard::new(),
        apex: Apex::new(),
    }
}

fn readings() -> Readings {
    Readings {
        now: 366_100,
        heap_free: 2048,
        heap_mapped: 4096,
        counter_a: 11,
        counter_b: 12,
        doom_entry: 0x7777,
        base: 0x9000_0000,
    }
}

fn said(sys: &mut System, line: &str) -> String {
    let (outcome, waiting) = run_command(sys, line.as_bytes(), &readings());
    assert!(waiting.is_none());
    String::from_utf8(outcome.text).unwrap()
}

fn type_line(shell: &mut Shell, sys: &mut System, line: &str) -> (String, String) {
    let mut echo = String::new();
    let mut text = String::new();
    for b in line.bytes() {
        let r = shell.take_key(sys, b, &readings());
        echo.push_str(&String::from_utf8(r.echo).unwrap());
        text.push_str(&String::from_utf8(r.outcome.text).unwrap());
    }
    (echo, text)
}

#[test]
fn hashes_are_those_of_the_standard() {
    assert_eq!(
        sha256_hex(b"abc"),
        b"ba7816bf8f01cfea414140de5dae2223b00361a396177a9cb410ff61f20015ad".to_vec()
    );
    assert_eq!(
        sha256_hex(b""),
        b"e3b0c44298fc1c149afbf4c8996fb92427ae41e4649b934ca495991b7852b855".to_vec()
    );
    assert_eq!(
        sha256_hex(b"abcdbcdecdefdefgefghfghighijhijkijkljklmklmnlmnomnopnopq"),
        b"248d6a61d20638b8e5c026930c3e6039a33ce45964ff2167f6ecedd419db06c1".to_vec()
    );
}

#[test]
fn every_command_is_found_by_its_name() {
    for c in commands() {
        let found = find(c.name.as_bytes()).unwrap();
        assert!(found.verb == c.verb);
        assert_eq!(found.requires_apex, matches!(c.verb, Verb::Rm | Verb::Reboot | Verb::Halt));
    }
    assert!(find(b"hel").is_none());
    assert!(find(b"").is_none());
    assert!(find(b"HELP").is_none());
    assert!(find(b"help ").is_none());
}

#[test]
fn help_lists_the_commands() {
    let text = said(&mut system(), "help");
    let lines: Vec<&str> = text.lines().collect();
    assert_eq!(lines.len(), 25);
    assert_eq!(lines[0], "commands:");
    assert_eq!(lines[1], "  help         show this list");
    assert_eq!(lines[14], "  rm           <file>  delete a file [apex]");
}

#[test]
fn unknown_commands_are_named() {
    assert_eq!(said(&mut system(), "frob x"), "unknown command: frob (try `help`)\n");
    assert_eq!(said(&mut system(), "   "), "");
}

#[test]
fn echo_keeps_what_follows() {
    assert_eq!(said(&mut system(), "  echo   one  two "), "one  two\n");
    assert_eq!(said(&mut system(), "echo"), "\n");
}

#[test]
fn uptime_is_split_into_hours_minutes_and_seconds() {
    assert_eq!(said(&mut system(), "uptime"), "up 1h 1m 1s (366100 ticks @ 100Hz)\n");
}

#[test]
fn alloc_sums_what_it_allocated() {
    assert_eq!(
        said(&mut system(), "alloc 5"),
        "allocated a Vec<u32> of 5 elements (heap-backed), sum = 10\ndropped it -- freed back to the heap.\n"
    );
    assert!(said(&mut system(), "alloc x").contains("of 16 elements (heap-backed), sum = 120\n"));
    assert!(said(&mut system(), "alloc 4294967297").contains("of 1 elements (heap-backed), sum = 0\n"));
}

#[test]
fn meminfo_counts_frames() {
    let text = said(&mut system(), "meminfo");
    assert_eq!(
        text,
        "physical: 0 MiB used, 3 MiB free, 4 MiB total (1024 frames @ 4 KiB)\nphysical (exact): 2 used frames, 1022 free frames\nheap: 2 KiB free (bump), 4 KiB mapped\nheap self-test: OK (allocated + verified a 64-element Vec)\n"
    );
}

#[test]
fn files_are_written_shown_and_listed() {
    let mut sys = system();
    assert_eq!(said(&mut sys, "ls"), "(empty)\n");
    assert_eq!(said(&mut sys, "write note.txt   hello there"), "wrote 12 bytes to note.txt\n");
    assert_eq!(said(&mut sys, "cat note.txt"), "hello there\n");
    assert_eq!(said(&mut sys, "ls"), "        12  NOTE.TXT\n");
    assert_eq!(said(&mut sys, "cat"), "usage: cat <file>\n");
    assert_eq!(said(&mut sys, "write"), "usage: write <file> <text>\n");
    assert_eq!(said(&mut sys, "cat none"), "cat: none: no such file or directory\n");
    assert_eq!(write_file(&mut sys.kernel.fs, b"BIN", &[0xFF, 0xFE]), Ok(()));
    assert_eq!(said(&mut sys, "cat bin"), "cat: bin is not valid UTF-8 (2 bytes)\n");
}

#[test]
fn parts_of_files_are_shown_in_quotes() {
    let mut sys = system();
    assert_eq!(said(&mut sys, "write n a\"b"), "wrote 4 bytes to n\n");
    assert_eq!(said(&mut sys, "readat n 0 4"), format!("4 bytes: {:?}\n", "a\"b\n"));
    assert_eq!(said(&mut sys, "readat n 1"), "usage: readat <file> <offset> <len>\n");
    assert_eq!(said(&mut sys, "readat n x 1"), "readat: x is not a valid offset\n");
    assert_eq!(said(&mut sys, "readat n 4294967296 1"), "readat: 4294967296 is not a valid offset\n");
    assert_eq!(said(&mut sys, "readat n 0 -1"), "readat: -1 is not a valid length\n");
    assert_eq!(said(&mut sys, "readat m 0 1"), "readat: m: no such file or directory\n");
    assert_eq!(write_file(&mut sys.kernel.fs, b"BIN", &[0xFF, 0xFE]), Ok(()));
    assert_eq!(said(&mut sys, "readat bin 0 9"), "2 bytes (not valid UTF-8)\n");
    assert_eq!(shown_range(3, "\"abc\""), b"3 bytes: \"abc\"\n".to_vec());
}

#[test]
fn cd_without_a_name_says_where_it_is() {
    let mut sys = system();
    assert_eq!(said(&mut sys, "cd"), "/\n");
    assert_eq!(said(&mut sys, "pwd"), "/\n");
    assert_eq!(said(&mut sys, "cd nowhere"), "cd: nowhere: no such file or directory\n");
}

#[test]
fn ps_shows_every_task() {
    let mut sys = system();
    spawn_demo_tasks(&mut sys.kernel.tasks, 1, 2, 0x10_0000, 0x20_0000);
    let text = said(&mut sys, "ps");
    let lines: Vec<&str> = text.lines().collect();
    assert_eq!(lines[0], format!("  {:<4} {:<10} {:<10} {:>10}", "ID", "NAME", "STATE", "TICKS"));
    assert_eq!(lines[2], format!("  {:<4} {:<10} {:<10} {:>10}", 1, "counter-a", "ready", 0));
    assert_eq!(lines[3], format!("  {:<4} {:<10} {:<10} {:>10}", 2, "counter-b", "ready", 0));
    assert!(lines[1].starts_with("* 0 "));
    assert_eq!(
        lines[4],
        "counter-a's loop count: 11, counter-b's loop count: 12 (proof both are actually spinning, not just scheduled)"
    );
}

#[test]
fn kill_ends_tasks_but_not_the_shell() {
    let mut sys = system();
    spawn_demo_tasks(&mut sys.kernel.tasks, 1, 2, 0x10_0000, 0x20_0000);
    assert_eq!(said(&mut sys, "kill"), "usage: kill <id>  (see `ps` for IDs)\n");
    assert_eq!(said(&mut sys, "kill x"), "kill: x: not a valid task ID\n");
    assert_eq!(said(&mut sys, "kill 0"), "kill: refusing to kill task 0 (the shell itself)\n");
    assert_eq!(said(&mut sys, "kill 9"), "kill: no live task with ID 9\n");
    assert_eq!(said(&mut sys, "kill 1"), "kill: task #1 (counter-a) terminated\n");
    assert_eq!(said(&mut sys, "kill 1"), "kill: task #1 (counter-a) was already terminated\n");
}

#[test]
fn the_game_gets_a_task_and_the_screen_back() {
    let mut sys = system();
    sys.keyboard.take_scancode(0x1E);
    let text = said(&mut sys, "doom");
    assert!(text.ends_with("doom: task #1 spawned\n"));
    assert_eq!(read_doom_event(&mut sys.keyboard), None);
    let (outcome, _) = run_command(&mut sys, b"kill 1", &readings());
    assert!(outcome.clear);
    let cleared = perform(&mut sys, Verb::Clear, b"", &readings());
    assert!(cleared.clear && cleared.text.is_empty());
}

#[test]
fn a_flat_program_is_run() {
    let mut sys = system();
    assert_eq!(write_file(&mut sys.kernel.fs, b"PROG", &[0xEB, 0xFE]), Ok(()));
    assert_eq!(said(&mut sys, "run HOME=/ A=b prog"), "run: prog: recognized as flat binary, task #1 spawned\n");
    assert_eq!(list(&sys.kernel.tasks)[1].1, "run:bin");
    assert_eq!(said(&mut sys, "run nothing"), "run: nothing: no such file or directory\n");
    assert_eq!(
        said(&mut sys, "run"),
        "usage: run [VAR=value ...] <file>  (flat binary, ELF64, or PE32+/.exe)\n"
    );
}

#[test]
fn actions_are_left_to_the_machine() {
    let mut sys = system();
    sys.apex.authenticated_until = u64::MAX;
    for (line, action) in [
        ("gui", Action::Gui),
        ("cdemo", Action::CDemo),
        ("cio", Action::CIo),
        ("reboot", Action::Reboot),
        ("halt", Action::Halt),
        ("about", Action::Nothing),
    ] {
        let (outcome, waiting) = run_command(&mut sys, line.as_bytes(), &readings());
        assert!(waiting.is_none());
        assert!(outcome.action == action);
    }
}

#[test]
fn demo_results_are_reported() {
    assert_eq!(
        cdemo_done(-4),
        b"cdemo: cdemo_run() returned -4 (expected 4032 = sum of 0,2,4,...,126)\n".to_vec()
    );
    assert_eq!(
        konjac_report(4032),
        b"cdemo: C code (via malloc/free through the kernel heap) computed sum = 4032\n".to_vec()
    );
    assert_eq!(cio_done(0), b"cio: iodemo_run() returned 0 (success)\n".to_vec());
    assert_eq!(cio_done(3), b"cio: iodemo_run() failed, step 3\n".to_vec());
}

#[test]
fn a_line_is_edited_and_bounded() {
    let mut line = LineBuffer::new();
    assert!(!line.pop());
    for _ in 0..120 {
        assert!(line.push(b'a'));
    }
    assert!(!line.push(b'b'));
    assert!(line.pop());
    assert_eq!(line.as_str(), vec![b'a'; 119]);
    line.clear();
    assert_eq!(line.as_str(), vec![]);
    assert!(line.push(0xFF));
    assert_eq!(line.as_str(), vec![]);
}

#[test]
fn keys_make_a_line() {
    let mut sys = system();
    let mut shell = Shell::new(0);
    let (echo, text) = type_line(&mut shell, &mut sys, "ecx\u{8}ho hi\n");
    assert_eq!(echo, "ecx\u{8}ho hi\n");
    assert_eq!(text, "hi\n");
    let r = shell.take_key(&mut sys, 0x1B, &readings());
    assert!(r.echo.is_empty() && !r.prompt);
    let r = shell.take_key(&mut sys, 0x08, &readings());
    assert!(r.echo.is_empty());
    let r = shell.take_key(&mut sys, b'\n', &readings());
    assert!(r.prompt);
    assert_eq!(greeting(), b"\nKonjacOS shell. Type `help` for a list of commands.\nkonjac> ".to_vec());
}

#[test]
fn the_cursor_flips_every_half_second() {
    let mut shell = Shell::new(100);
    assert!(!shell.blink(149));
    assert!(shell.blink(150));
    assert!(!shell.blink(199));
    assert!(shell.blink(200));
}

#[test]
fn a_guarded_command_waits_for_a_new_password() {
    let mut sys = system();
    let mut shell = Shell::new(0);
    assert_eq!(write_file(&mut sys.kernel.fs, b"A", b"x"), Ok(()));
    let (_, text) = type_line(&mut shell, &mut sys, "rm a\n");
    assert_eq!(
        text,
        "[apex] no password set yet -- this is a one-time setup, needed to run 'rm'.\nNew apex password: "
    );
    assert!(read_file(&mut sys.kernel.fs, b"A").is_ok());
    let (echo, _) = type_line(&mut shell, &mut sys, "abd\u{8}c\n");
    assert_eq!(echo, "***\u{8}*\nConfirm password: ");
    assert!(read_file(&mut sys.kernel.fs, b"A").is_ok());
    let (echo, text) = type_line(&mut shell, &mut sys, "abc\n");
    assert_eq!(echo, "***\napex password set.\n");
    assert_eq!(text, "removed a\n");
    assert!(read_file(&mut sys.kernel.fs, b"A").is_err());
    assert_eq!(read_file(&mut sys.kernel.fs, b"/APEX.PWD"), Ok(sha256_hex(b"abc")));
    assert!(is_authenticated(&sys.apex, readings().now + CACHE_TICKS - 1));
    assert!(!is_authenticated(&sys.apex, readings().now + CACHE_TICKS));
}

#[test]
fn the_password_that_was_set_opens_the_lock() {
    let mut sys = system();
    assert_eq!(write_file(&mut sys.kernel.fs, b"/APEX.PWD", &sha256_hex(b"secret")), Ok(()));
    let mut shell = Shell::new(0);
    let (_, text) = type_line(&mut shell, &mut sys, "halt\n");
    assert_eq!(text, "[apex] password for 'halt': ");
    let (echo, text) = type_line(&mut shell, &mut sys, "wrong\n");
    assert_eq!(echo, "*****\nSorry, try again.\n[apex] password for 'halt': ");
    assert_eq!(text, "");
    let (_, text) = type_line(&mut shell, &mut sys, "secret\n");
    assert_eq!(text, "halting.\n");
    assert_eq!(
        said(&mut sys, "apex"),
        "apex: authenticated (cached -- won't re-prompt for a few minutes)\n"
    );
}

#[test]
fn three_wrong_passwords_close_the_lock() {
    let mut sys = system();
    assert_eq!(write_file(&mut sys.kernel.fs, b"/APEX.PWD", &sha256_hex(b"secret")), Ok(()));
    let mut shell = Shell::new(0);
    type_line(&mut shell, &mut sys, "rm a\n1\n2\n");
    let (echo, text) = type_line(&mut shell, &mut sys, "3\n");
    assert_eq!(echo, "*\nSorry, try again.\napex: too many failed attempts.\n");
    assert_eq!(text, "rm: apex authentication failed, aborting.\n");
    assert_eq!(said(&mut sys, "apex"), "apex: not authenticated -- the next [apex] command will prompt\n");
}

#[test]
fn passwords_must_match_and_not_be_empty() {
    let mut sys = system();
    let mut shell = Shell::new(0);
    let (echo, text) = type_line(&mut shell, &mut sys, "rm a\na\nb\n");
    assert!(echo.ends_with("apex: passwords didn't match, nothing saved.\n"));
    assert!(text.ends_with("rm: apex authentication failed, aborting.\n"));
    let (echo, _) = type_line(&mut shell, &mut sys, "rm a\n\n\n");
    assert!(echo.ends_with("apex: empty password not allowed, nothing saved.\n"));
    assert!(read_file(&mut sys.kernel.fs, b"/APEX.PWD").is_err());
}

#[test]
fn a_corrupt_password_file_closes_the_lock() {
    let mut sys = system();
    assert_eq!(write_file(&mut sys.kernel.fs, b"/APEX.PWD", &[0xFF]), Ok(()));
    assert_eq!(
        said(&mut sys, "rm a"),
        "apex: error reading password file: apex: password file is corrupt (not valid text)\nrm: apex authentication failed, aborting.\n"
    );
    let (_, verdict, dialogue) = authenticate(&Apex { authenticated_until: 10 }, &mut sys.kernel.fs, 9, b"rm");
    assert!(verdict == Verdict::Granted && dialogue.is_none());
}

#[test]
fn the_unlock_window_is_that_of_the_last_success() {
    let mut sys = system();
    let ask = |sys: &mut System, now: u64, line: &[u8]| {
        let (_, _, dialogue) = authenticate(&sys.apex, &mut sys.kernel.fs, now, b"rm");
        let mut dialogue = dialogue.unwrap();
        let mut last = Verdict::Waiting;
        for key in line {
            last = dialogue.take_key(*key, &mut sys.apex, &mut sys.kernel.fs, now).1;
        }
        last
    };
    assert!(!is_authenticated(&sys.apex, 0));
    assert!(ask(&mut sys, 100, b"pw\npw\n") == Verdict::Granted);
    assert!(is_authenticated(&sys.apex, 30_099));
    assert!(!is_authenticated(&sys.apex, 30_100));
    assert!(ask(&mut sys, 30_100, b"no\nno\nno\n") == Verdict::Denied);
    assert!(!is_authenticated(&sys.apex, 30_100));
    assert!(ask(&mut sys, 40_000, b"no\npw\n") == Verdict::Granted);
    assert!(is_authenticated(&sys.apex, 69_999));
    assert!(!is_authenticated(&sys.apex, 70_000));
}

#[test]
fn the_shells_state_is_tested() {
    let mut sys = system();
    assert!(system_in_order(&sys));
    said(&mut sys, "ls");
    assert!(system_in_order(&sys));
    sys.keyboard.chars.head = 5000;
    assert!(!system_in_order(&sys));
}

#[test]
fn commands_keep_the_kernel_in_order() {
    let mut sys = system();
    assert_eq!(write_file(&mut sys.kernel.fs, b"PROG", &[0xEB, 0xFE]), Ok(()));
    said(&mut sys, "run prog");
    assert!(system_in_order(&sys));
    let killed = perform(&mut sys, Verb::Kill, b"1", &readings());
    assert_eq!(killed.text, b"kill: task #1 (run:bin) terminated\n");
    assert!(system_in_order(&sys));
    perform(&mut sys, Verb::Doom, b"", &readings());
    assert!(system_in_order(&sys));
}
