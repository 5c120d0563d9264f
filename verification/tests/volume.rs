use konjac::fat16::{
    can_write, change_dir, cwd_path_string, init, list_current_dir, open_file, read_file, read_file_range, remove_file,
    sectors_read, sectors_written, stat_path, write_file, Disk, Fs,
};
use konjac::store::{drop_file, keep_file};

const FAT: usize = 1;
const ROOT: usize = 5;
const DATA: usize = 7;
const SECTORS: usize = 120;

/// A volume of 120 sectors: two tables of two sectors each, a root directory
/// of 32 entries, and clusters of one sector.
fn blank() -> Vec<Result<Vec<u8>, &'static str>> {
    let mut sectors: Vec<Result<Vec<u8>, &'static str>> = vec![Ok(vec![0u8; 512]); SECTORS];
    let boot = sectors[0].as_mut().unwrap();
    boot[11] = 0x00;
    boot[12] = 0x02;
    boot[13] = 1;
    boot[14] = 1;
    boot[16] = 2;
    boot[17] = 32;
    boot[19] = SECTORS as u8;
    boot[22] = 2;
    boot[510] = 0x55;
    boot[511] = 0xAA;
    for copy in 0..2 {
        let fat = sectors[FAT + 2 * copy].as_mut().unwrap();
        fat[0] = 0xF8;
        fat[1] = 0xFF;
        fat[2] = 0xFF;
        fat[3] = 0xFF;
    }
    sectors
}

fn mounted(sectors: Vec<Result<Vec<u8>, &'static str>>) -> Fs {
    let mut fs = Fs::new(Disk { sectors });
    assert_eq!(init(&mut fs), Ok(()));
    fs
}

fn fat_entry(fs: &Fs, copy: usize, cluster: usize) -> u16 {
    let s = fs.disk.sectors[FAT + 2 * copy + cluster * 2 / 512].as_ref().unwrap();
    s[cluster * 2 % 512] as u16 + s[cluster * 2 % 512 + 1] as u16 * 256
}

/// Puts a record of a directory at cluster 50, named `SUB`, into the root.
fn with_subdirectory() -> Fs {
    let mut sectors = blank();
    let root = sectors[ROOT].as_mut().unwrap();
    root[..11].copy_from_slice(b"SUB        ");
    root[11] = 0x10;
    root[26] = 50;
    for copy in 0..2 {
        let fat = sectors[FAT + 2 * copy].as_mut().unwrap();
        fat[100] = 0xFF;
        fat[101] = 0xFF;
    }
    mounted(sectors)
}

fn error(r: Result<(), &'static str>) -> &'static str {
    r.unwrap_err()
}

#[test]
fn a_disk_without_signature_is_refused() {
    let mut sectors = blank();
    sectors[0].as_mut().unwrap()[510] = 0;
    let mut fs = Fs::new(Disk { sectors });
    assert_eq!(error(init(&mut fs)), "fat16: missing boot sector signature (no filesystem on disk?)");
}

#[test]
fn other_sector_sizes_are_refused() {
    let mut sectors = blank();
    sectors[0].as_mut().unwrap()[12] = 4;
    let mut fs = Fs::new(Disk { sectors });
    assert_eq!(error(init(&mut fs)), "fat16: only 512-byte sectors are supported");
}

#[test]
fn a_fat32_volume_is_refused() {
    let mut sectors = blank();
    sectors[0].as_mut().unwrap()[22] = 0;
    let mut fs = Fs::new(Disk { sectors });
    assert_eq!(error(init(&mut fs)), "fat16: FAT32 volume (or malformed BPB) -- not supported");
}

#[test]
fn a_disk_that_cannot_be_read_is_refused() {
    let mut fs = Fs::new(Disk { sectors: vec![] });
    assert!(init(&mut fs).is_err());
    assert!(read_file(&mut fs, b"A.TXT").is_err());
}

#[test]
fn a_written_file_reads_back() {
    let mut fs = mounted(blank());
    let data: Vec<u8> = (0..1300u32).map(|i| (i * 7 % 251) as u8).collect();
    assert!(can_write(&mut fs, b"NOTES.TXT", &data));
    assert_eq!(write_file(&mut fs, b"NOTES.TXT", &data), Ok(()));
    assert_eq!(read_file(&mut fs, b"/notes.txt"), Ok(data.clone()));
    assert_eq!(stat_path(&mut fs, b"NOTES.TXT"), Ok((false, 1300)));
    let names = list_current_dir(&mut fs).map(|v| v.into_iter().map(|e| (e.name, e.size, e.is_dir)).collect::<Vec<_>>());
    assert_eq!(names, Ok(vec![(b"NOTES.TXT".to_vec(), 1300, false)]));
    let first = fs.disk.sectors[ROOT].as_ref().unwrap()[26] as usize;
    assert_eq!(first, 2);
    assert_eq!(fs.disk.sectors[DATA].as_ref().unwrap()[..4], data[..4]);
}

#[test]
fn both_tables_stay_in_step() {
    let mut fs = mounted(blank());
    assert_eq!(write_file(&mut fs, b"A", &[1u8; 1025]), Ok(()));
    for cluster in 0..100 {
        assert_eq!(fat_entry(&fs, 0, cluster), fat_entry(&fs, 1, cluster));
    }
    assert_eq!(fat_entry(&fs, 0, 2), 3);
    assert_eq!(fat_entry(&fs, 0, 3), 4);
    assert_eq!(fat_entry(&fs, 0, 4), 0xFFFF);
}

#[test]
fn writing_again_replaces_the_file_and_frees_its_clusters() {
    let mut fs = mounted(blank());
    assert_eq!(write_file(&mut fs, b"A", &[1u8; 1025]), Ok(()));
    assert_eq!(write_file(&mut fs, b"A", b"short"), Ok(()));
    assert_eq!(read_file(&mut fs, b"A"), Ok(b"short".to_vec()));
    let used = (2..100).filter(|c| fat_entry(&fs, 0, *c) != 0).count();
    assert_eq!(used, 1);
}

#[test]
fn a_removed_file_is_gone() {
    let mut fs = mounted(blank());
    assert_eq!(write_file(&mut fs, b"A", &[1u8; 600]), Ok(()));
    assert_eq!(write_file(&mut fs, b"B", b"bee"), Ok(()));
    assert_eq!(remove_file(&mut fs, b"A"), Ok(()));
    assert_eq!(read_file(&mut fs, b"A"), Err("no such file or directory"));
    assert_eq!(read_file(&mut fs, b"B"), Ok(b"bee".to_vec()));
    assert_eq!(remove_file(&mut fs, b"A"), Err("no such file"));
    let used = (2..100).filter(|c| fat_entry(&fs, 0, *c) != 0).count();
    assert_eq!(used, 1);
}

#[test]
fn an_empty_file_has_no_clusters() {
    let mut fs = mounted(blank());
    assert_eq!(write_file(&mut fs, b"EMPTY", b""), Ok(()));
    assert_eq!(read_file(&mut fs, b"EMPTY"), Ok(vec![]));
    assert_eq!(stat_path(&mut fs, b"EMPTY"), Ok((false, 0)));
}

#[test]
fn a_range_is_part_of_the_file() {
    let mut fs = mounted(blank());
    let data: Vec<u8> = (0..2000u32).map(|i| (i % 253) as u8).collect();
    assert_eq!(write_file(&mut fs, b"A", &data), Ok(()));
    assert_eq!(read_file_range(&mut fs, b"A", 500, 700), Ok(data[500..1200].to_vec()));
    assert_eq!(read_file_range(&mut fs, b"A", 1990, 100), Ok(data[1990..].to_vec()));
    assert_eq!(read_file_range(&mut fs, b"A", 5000, 10), Ok(vec![]));
}

#[test]
fn a_file_remembers_where_it_was() {
    let mut fs = mounted(blank());
    let data: Vec<u8> = (0..2000u32).map(|i| (i % 241) as u8).collect();
    assert_eq!(write_file(&mut fs, b"A", &data), Ok(()));
    let mut file = open_file(&mut fs, b"A").unwrap();
    let mut part = vec![0u8; 100];
    assert_eq!(file.read_at(&mut fs, 1500, &mut part), Ok(100));
    assert_eq!(part, data[1500..1600]);
    assert_eq!(file.cursor_index, 3);
    let mut early = vec![0u8; 50];
    assert_eq!(file.read_at(&mut fs, 3, &mut early), Ok(50));
    assert_eq!(early, data[3..53]);
}

#[test]
fn subdirectories_are_walked() {
    let mut fs = with_subdirectory();
    assert_eq!(change_dir(&mut fs, b"sub"), Ok(()));
    assert_eq!(cwd_path_string(&fs), b"/SUB".to_vec());
    assert_eq!(write_file(&mut fs, b"IN.TXT", b"inside"), Ok(()));
    assert_eq!(read_file(&mut fs, b"IN.TXT"), Ok(b"inside".to_vec()));
    assert_eq!(change_dir(&mut fs, b".."), Ok(()));
    assert_eq!(cwd_path_string(&fs), b"/".to_vec());
    assert_eq!(read_file(&mut fs, b"SUB/IN.TXT"), Ok(b"inside".to_vec()));
    assert_eq!(read_file(&mut fs, b"/sub/in.txt"), Ok(b"inside".to_vec()));
    assert_eq!(read_file(&mut fs, b"IN.TXT"), Err("no such file or directory"));
    assert_eq!(stat_path(&mut fs, b"SUB"), Ok((true, 0)));
}

#[test]
fn a_full_subdirectory_grows() {
    let mut fs = with_subdirectory();
    assert_eq!(change_dir(&mut fs, b"SUB"), Ok(()));
    for i in 0..20u32 {
        let name = format!("F{i}.TXT");
        assert_eq!(write_file(&mut fs, name.as_bytes(), name.as_bytes()), Ok(()));
    }
    for i in 0..20u32 {
        let name = format!("F{i}.TXT");
        assert_eq!(read_file(&mut fs, name.as_bytes()), Ok(name.as_bytes().to_vec()));
    }
    assert!(fat_entry(&fs, 0, 50) < 0xFFF8);
}

#[test]
fn bad_paths_have_their_errors() {
    let mut fs = with_subdirectory();
    assert_eq!(write_file(&mut fs, b"A", b"x"), Ok(()));
    assert_eq!(change_dir(&mut fs, b"A"), Err("not a directory"));
    assert_eq!(change_dir(&mut fs, b"NONE"), Err("no such file or directory"));
    assert_eq!(read_file(&mut fs, b"SUB"), Err("is a directory"));
    assert_eq!(read_file(&mut fs, b"/"), Err("not a file"));
    assert_eq!(cwd_path_string(&fs), b"/".to_vec());
}

#[test]
fn a_full_disk_is_reported() {
    let mut fs = mounted(blank());
    let r = write_file(&mut fs, b"BIG", &vec![7u8; 200 * 512]);
    assert_eq!(r, Err("disk full (no free clusters)"));
}

#[test]
fn long_names_are_shown() {
    let mut sectors = blank();
    let root = sectors[ROOT].as_mut().unwrap();
    let name: Vec<u16> = "Long Name.txt".encode_utf16().collect();
    let at = [1usize, 3, 5, 7, 9, 14, 16, 18, 20, 22, 24, 28, 30];
    root[0] = 0x41;
    root[11] = 0x0F;
    for (i, off) in at.iter().enumerate() {
        root[*off] = name[i] as u8;
        root[*off + 1] = (name[i] >> 8) as u8;
    }
    root[32..43].copy_from_slice(b"LONGNA~1TXT");
    root[43] = 0x20;
    let mut fs = mounted(sectors);
    let entries = list_current_dir(&mut fs).unwrap();
    assert_eq!(entries.len(), 1);
    assert_eq!(entries[0].name, b"Long Name.txt".to_vec());
    assert_eq!(read_file(&mut fs, b"long name.TXT"), Ok(vec![]));
}

#[test]
fn sectors_are_counted() {
    let mut fs = mounted(blank());
    assert_eq!(sectors_read(&fs), 1);
    assert_eq!(sectors_written(&fs), 0);
    assert_eq!(write_file(&mut fs, b"A", b"x"), Ok(()));
    assert!(sectors_written(&fs) >= 4);
}

#[test]
fn files_are_kept_where_the_volume_can_be_written() {
    let mut fs = mounted(blank());
    assert_eq!(keep_file(&mut fs, b"A", b"kept"), Ok(()));
    assert_eq!(read_file(&mut fs, b"A"), Ok(b"kept".to_vec()));
    assert_eq!(drop_file(&mut fs, b"A"), Ok(()));
    let mut sectors = blank();
    sectors[0].as_mut().unwrap()[13] = 0;
    let mut odd = mounted(sectors);
    assert_eq!(keep_file(&mut odd, b"A", b"x"), Err("this volume cannot be written"));
    assert_eq!(keep_file(&mut odd, b"A", b""), Ok(()));
    assert_eq!(read_file(&mut odd, b"A"), Ok(vec![]));
    assert_eq!(drop_file(&mut odd, b"A"), Ok(()));
    assert_eq!(drop_file(&mut odd, b"A"), Err("no such file"));
    assert_eq!(keep_file(&mut odd, b"NONE/A", b"x"), Err("no such file or directory"));
}

#[test]
fn writing_leaves_other_files_and_directories_alone() {
    let mut fs = with_subdirectory();
    let first: Vec<u8> = (0..1500u32).map(|i| (i % 199) as u8).collect();
    assert_eq!(write_file(&mut fs, b"FIRST", &first), Ok(()));
    assert_eq!(write_file(&mut fs, b"SUB/OLD", &[3u8; 700]), Ok(()));
    let listed = list_current_dir(&mut fs).unwrap().len();
    assert_eq!(write_file(&mut fs, b"SUB/NEW", &[4u8; 900]), Ok(()));
    assert_eq!(write_file(&mut fs, b"SUB/OLD", &[5u8; 2000]), Ok(()));
    assert_eq!(read_file(&mut fs, b"FIRST"), Ok(first));
    assert_eq!(read_file(&mut fs, b"SUB/NEW"), Ok(vec![4u8; 900]));
    assert_eq!(read_file(&mut fs, b"SUB/OLD"), Ok(vec![5u8; 2000]));
    assert_eq!(stat_path(&mut fs, b"/SUB/OLD"), Ok((false, 2000)));
    assert_eq!(list_current_dir(&mut fs).unwrap().len(), listed);
    for cluster in 0..110 {
        assert_eq!(fat_entry(&fs, 0, cluster), fat_entry(&fs, 1, cluster));
    }
}

#[test]
fn a_file_in_a_subdirectory_is_removed_alone() {
    let mut fs = with_subdirectory();
    for name in ["SUB/A", "SUB/B", "SUB/C"] {
        assert_eq!(write_file(&mut fs, name.as_bytes(), name.as_bytes()), Ok(()));
    }
    assert_eq!(remove_file(&mut fs, b"SUB/B"), Ok(()));
    assert_eq!(change_dir(&mut fs, b"SUB"), Ok(()));
    let names: Vec<Vec<u8>> = list_current_dir(&mut fs).unwrap().into_iter().map(|e| e.name).collect();
    assert_eq!(names, vec![b"A".to_vec(), b"C".to_vec()]);
    assert_eq!(read_file(&mut fs, b"B"), Err("no such file or directory"));
}

#[test]
fn status_and_opening_agree() {
    let mut fs = with_subdirectory();
    assert_eq!(write_file(&mut fs, b"SUB/A.TXT", &[1u8; 33]), Ok(()));
    for path in ["/", "SUB", "SUB/", "SUB/..", "/SUB/.", ""] {
        assert_eq!(stat_path(&mut fs, path.as_bytes()), Ok((true, 0)));
        assert!(open_file(&mut fs, path.as_bytes()).is_err());
    }
    assert_eq!(stat_path(&mut fs, b"SUB/A.TXT"), Ok((false, 33)));
    assert!(matches!(open_file(&mut fs, b"SUB/A.TXT"), Ok(f) if f.size == 33));
    for path in ["B", "SUB/B", "B/A.TXT", "SUB/A.TXT/", "SUB/A.TXT/C"] {
        assert!(stat_path(&mut fs, path.as_bytes()).is_err());
        assert!(open_file(&mut fs, path.as_bytes()).is_err());
    }
}

#[test]
fn the_printed_path_leads_back() {
    let mut fs = with_subdirectory();
    assert_eq!(cwd_path_string(&fs), b"/".to_vec());
    assert_eq!(change_dir(&mut fs, b"sub"), Ok(()));
    let there = cwd_path_string(&fs);
    assert_eq!(there, b"/SUB".to_vec());
    for from in ["/", "/SUB"] {
        assert_eq!(change_dir(&mut fs, from.as_bytes()), Ok(()));
        assert_eq!(change_dir(&mut fs, &there), Ok(()));
        assert_eq!(cwd_path_string(&fs), there);
    }
}

#[test]
fn any_part_of_a_sound_file_is_read() {
    let mut fs = mounted(blank());
    let data: Vec<u8> = (0..1300u32).map(|i| (i * 11 % 241) as u8).collect();
    assert_eq!(write_file(&mut fs, b"DATA", &data), Ok(()));
    for (offset, len) in [(0, 1300), (0, 5000), (511, 2), (512, 512), (1299, 9), (1024, 0)] {
        let end = (offset + len).min(1300);
        assert_eq!(read_file_range(&mut fs, b"DATA", offset as u32, len), Ok(data[offset..end].to_vec()));
    }
    assert_eq!(read_file_range(&mut fs, b"DATA", 1300, 10), Ok(vec![]));
    assert_eq!(read_file_range(&mut fs, b"DATA", u32::MAX, 10), Ok(vec![]));
}

#[test]
fn removing_spares_every_other_file() {
    let mut fs = with_subdirectory();
    let files = [("A", 700usize), ("B", 1600), ("SUB/C", 900), ("SUB/D", 0)];
    for (name, size) in files {
        let data = vec![name.as_bytes()[0]; size];
        assert_eq!(write_file(&mut fs, name.as_bytes(), &data), Ok(()));
    }
    assert_eq!(remove_file(&mut fs, b"B"), Ok(()));
    for (name, size) in files {
        if name != "B" {
            assert_eq!(read_file(&mut fs, name.as_bytes()), Ok(vec![name.as_bytes()[0]; size]));
        }
    }
    assert_eq!(change_dir(&mut fs, b"SUB"), Ok(()));
    assert_eq!(list_current_dir(&mut fs).unwrap().len(), 2);
}

#[test]
fn a_written_name_is_listed_once() {
    let mut fs = mounted(blank());
    for name in ["A.TXT", "B.TXT", "C.TXT"] {
        assert_eq!(write_file(&mut fs, name.as_bytes(), b"1"), Ok(()));
    }
    assert_eq!(remove_file(&mut fs, b"A.TXT"), Ok(()));
    for (name, size) in [("b.txt", 40), ("D.TXT", 5), ("d.txt", 6)] {
        assert_eq!(write_file(&mut fs, name.as_bytes(), &vec![7u8; size]), Ok(()));
    }
    let listed: Vec<(Vec<u8>, u32)> =
        list_current_dir(&mut fs).unwrap().into_iter().map(|e| (e.name, e.size)).collect();
    assert_eq!(
        listed,
        vec![(b"D.TXT".to_vec(), 6), (b"B.TXT".to_vec(), 40), (b"C.TXT".to_vec(), 1)]
    );
}

#[test]
fn the_drive_says_why_a_sector_cannot_be_read() {
    let fault = "ATA error (DF set -- device fault)";
    let absent = "ATA error: no drive responding";
    let mut none = Fs::new(Disk { sectors: vec![Err(absent)] });
    assert_eq!(error(init(&mut none)), absent);
    let mut fs = mounted(blank());
    assert_eq!(write_file(&mut fs, b"DATA", &[5u8; 1100]), Ok(()));
    fs.disk.sectors[DATA + 1] = Err(fault);
    assert_eq!(read_file(&mut fs, b"DATA"), Err(fault));
    assert_eq!(read_file_range(&mut fs, b"DATA", 0, 512), Ok(vec![5u8; 512]));
    assert_eq!(read_file_range(&mut fs, b"DATA", 0, 513), Err(fault));
    fs.disk.sectors[FAT + 2] = Err(absent);
    assert_eq!(remove_file(&mut fs, b"DATA"), Err(absent));
    assert_eq!(write_file(&mut fs, b"MORE", b"1"), Err(absent));
    fs.disk.sectors[ROOT] = Err(fault);
    assert_eq!(list_current_dir(&mut fs).err(), Some(fault));
    assert_eq!(write_file(&mut fs, b"MORE", b"1"), Err(fault));
}

#[test]
fn clusters_are_asked_for_only_where_they_are_needed() {
    let mut sectors = blank();
    sectors[0].as_mut().unwrap()[13] = 0;
    let root = sectors[ROOT].as_mut().unwrap();
    root[..11].copy_from_slice(b"SUB        ");
    root[11] = 0x10;
    root[26] = 50;
    let mut fs = mounted(sectors);
    assert!(!can_write(&mut fs, b"NEW", b"1"));
    assert!(can_write(&mut fs, b"NEW", b""));
    assert!(can_write(&mut fs, b"", b"1"));
    assert!(can_write(&mut fs, b"SUB", b"1"));
    assert_eq!(write_file(&mut fs, b"SUB", b"1"), Err("is a directory"));
    for i in 0..32 {
        let s = fs.disk.sectors[ROOT + i / 16].as_mut().unwrap();
        s[32 * (i % 16)] = b'A' + (i % 26) as u8;
    }
    assert!(can_write(&mut fs, b"NEW", b"1"));
    assert_eq!(write_file(&mut fs, b"NEW", b"1"), Err("root directory is full"));
}
