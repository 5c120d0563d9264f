use konjac::fat16::{Disk, Fs};
use konjac::heap::{stats, Heap, HEAP_BASE, INITIAL_HEAP_SIZE};
use konjac::limine::{base_revision_supported, memmap, MemmapEntry, MemmapEntryRaw, MemmapIter, MemmapKind};
use konjac::memory::{memory_map_text, self_test, start, NOT_STARTABLE};
use konjac::paging::{
    current_cr3, destroy_address_space, map_page, map_page_in, new_address_space, nx_available, protect_range_in,
    translate, try_map_page_in, unmap_page, Memory, PAGE_NX, PAGE_USER, PAGE_WRITABLE,
};
use konjac::pmm::{alloc_frame, free_frame, hhdm_offset, init, map_is_valid, Pmm};
use konjac::ram::{load_byte, store_byte, store_bytes, zero_frame};
use konjac::survey::{survey, survey_known, survey_space};
use konjac::task::FileBacking;
use konjac::vm::{Regions, EACCES, EINVAL, ENOMEM, ENOSYS, USER_END};

fn pmm_of(entries: &[MemmapEntry]) -> Pmm {
    let mut pmm = Pmm::new();
    init(&mut pmm, 0xFFFF_8000_0000_0000, entries);
    pmm
}

fn usable(base: u64, length: u64) -> MemmapEntry {
    MemmapEntry { base, length, kind: MemmapKind::Usable }
}

/// Memory of `frames` frames, all usable, with an empty address space.
fn memory(frames: u64) -> Memory {
    let mut pmm = pmm_of(&[usable(0, frames * 4096)]);
    let cr3 = alloc_frame(&mut pmm).unwrap();
    Memory { ram: vec![0u64; frames as usize * 512], pmm, cr3, nx: true }
}

fn no_disk() -> Fs {
    Fs::new(Disk { sectors: vec![] })
}

#[test]
fn the_memory_map_is_read() {
    let raw = vec![
        MemmapEntryRaw { base: 0, length: 0x1000, kind: 1 },
        MemmapEntryRaw { base: 0x1000, length: 0x30_0000, kind: 0 },
        MemmapEntryRaw { base: 0x90_0000, length: 0x1000, kind: 77 },
    ];
    let entries = memmap(raw.clone());
    assert_eq!(entries[1], usable(0x1000, 0x30_0000));
    assert_eq!(entries[2].kind, MemmapKind::Unknown(77));
    let mut iter = MemmapIter::new(raw);
    assert_eq!(iter.next().unwrap().kind, MemmapKind::Reserved);
    assert_eq!(memory_map_text(&entries), b"memory map: 3 entries, 3 MiB usable\n".to_vec());
    assert_eq!(MemmapKind::from_raw(5).as_str(), "bootloader reclaimable");
    assert!(base_revision_supported([1, 2, 0]));
    assert!(!base_revision_supported([1, 2, 3]));
}

#[test]
fn frames_are_handed_out_once() {
    let mut pmm = pmm_of(&[usable(0x1000, 0x8000)]);
    let (total, free) = konjac::pmm::stats(&pmm);
    assert_eq!((total, free), (9, 7));
    let mut seen = vec![];
    while let Some(f) = alloc_frame(&mut pmm) {
        assert!(!seen.contains(&f));
        assert_eq!(f % 4096, 0);
        seen.push(f);
    }
    assert_eq!(seen.len(), 7);
    assert!(!seen.contains(&0));
    assert_eq!(konjac::pmm::stats(&pmm), (9, 0));
    free_frame(&mut pmm, seen[3]);
    assert_eq!(konjac::pmm::stats(&pmm), (9, 1));
    assert_eq!(alloc_frame(&mut pmm), Some(seen[3]));
    assert_eq!(hhdm_offset(&pmm), 0xFFFF_8000_0000_0000);
}

#[test]
fn there_are_no_frames_before_setting_up() {
    let mut pmm = Pmm::new();
    assert_eq!(alloc_frame(&mut pmm), None);
    assert_eq!(konjac::pmm::stats(&pmm), (0, 0));
}

#[test]
fn bytes_are_stored_in_words() {
    let mut ram = vec![0u64; 1024];
    store_byte(&mut ram, 9, 0xAB);
    assert_eq!(ram[1], 0xAB00);
    assert_eq!(load_byte(&ram, 9), 0xAB);
    store_bytes(&mut ram, 4096, &[1, 2, 3]);
    assert_eq!(ram[512], 0x0003_0201);
    zero_frame(&mut ram, 4096);
    assert_eq!(ram[512], 0);
    assert_eq!(ram[1], 0xAB00);
}

#[test]
fn a_mapped_page_translates_and_an_unmapped_one_does_not() {
    let mut mem = memory(64);
    let pml4 = current_cr3(&mem);
    assert_eq!(translate(&mem, pml4, 0x40_0000), None);
    let phys = alloc_frame(&mut mem.pmm).unwrap();
    map_page(&mut mem, 0x40_0000, phys, PAGE_WRITABLE);
    assert_eq!(translate(&mem, pml4, 0x40_0000), Some(phys));
    assert_eq!(translate(&mem, pml4, 0x40_1000), None);
    assert_eq!(unmap_page(&mut mem, pml4, 0x40_0000), Some(phys));
    assert_eq!(translate(&mem, pml4, 0x40_0000), None);
    assert_eq!(unmap_page(&mut mem, pml4, 0x40_0000), None);
}

#[test]
fn address_spaces_share_the_upper_half_only() {
    let mut mem = memory(64);
    let kernel = current_cr3(&mem);
    let phys = alloc_frame(&mut mem.pmm).unwrap();
    map_page(&mut mem, 0xFFFF_9000_0000_0000, phys, PAGE_WRITABLE);
    let a = new_address_space(&mut mem);
    let b = new_address_space(&mut mem);
    assert_eq!(translate(&mem, a, 0xFFFF_9000_0000_0000), Some(phys));
    let own = alloc_frame(&mut mem.pmm).unwrap();
    map_page_in(&mut mem, a, 0x40_0000, own, PAGE_USER);
    assert_eq!(translate(&mem, a, 0x40_0000), Some(own));
    assert_eq!(translate(&mem, b, 0x40_0000), None);
    assert_eq!(translate(&mem, kernel, 0x40_0000), None);
}

#[test]
fn destroying_an_address_space_gives_its_frames_back() {
    let mut mem = memory(64);
    let mut regions = Regions::new();
    let before = konjac::pmm::stats(&mem.pmm).1;
    let a = new_address_space(&mut mem);
    let own = alloc_frame(&mut mem.pmm).unwrap();
    assert!(try_map_page_in(&mut mem, a, 0x40_0000, own, PAGE_USER));
    assert_eq!(konjac::pmm::stats(&mem.pmm).1, before - 5);
    destroy_address_space(&mut mem, &mut regions, a);
    assert_eq!(konjac::pmm::stats(&mem.pmm).1, before);
}

#[test]
fn mapping_without_frames_fails_without_a_trace() {
    let mut mem = memory(4);
    let pml4 = current_cr3(&mem);
    assert_eq!(konjac::pmm::stats(&mem.pmm).1, 2);
    assert!(!try_map_page_in(&mut mem, pml4, 0x40_0000, 0x3000, PAGE_USER));
    assert_eq!(translate(&mem, pml4, 0x40_0000), None);
}

#[test]
fn protection_changes_flags_only() {
    let mut mem = memory(64);
    let pml4 = current_cr3(&mem);
    let phys = alloc_frame(&mut mem.pmm).unwrap();
    map_page(&mut mem, 0x40_0000, phys, PAGE_USER);
    protect_range_in(&mut mem, pml4, 0x40_0000, 4096, PAGE_WRITABLE | PAGE_NX);
    assert_eq!(translate(&mem, pml4, 0x40_0000), Some(phys));
}

#[test]
fn no_execute_is_turned_on_where_it_exists() {
    let mut mem = memory(4);
    mem.nx = false;
    assert_eq!(konjac::paging::init(&mut mem, 0, 1), None);
    assert!(!nx_available(&mem));
    assert_eq!(konjac::paging::init(&mut mem, 0x10_0000, 1), Some(0x801));
    assert!(nx_available(&mem));
}

#[test]
fn the_heap_reuses_what_was_freed() {
    let mut heap = Heap::new(vec![0u64; INITIAL_HEAP_SIZE as usize / 8]);
    let a = heap.allocate(100, 16).unwrap();
    let b = heap.allocate(100, 16).unwrap();
    assert_eq!(a, HEAP_BASE);
    assert_eq!(b, HEAP_BASE + 112);
    assert_eq!(stats(&heap), (INITIAL_HEAP_SIZE - 224, INITIAL_HEAP_SIZE));
    heap.deallocate(a, 100);
    assert_eq!(heap.allocate(100, 16), Some(a));
    heap.deallocate(a, 100);
    assert_eq!(heap.allocate(32, 16), Some(a));
    assert_eq!(heap.allocate(64, 16), Some(a + 32));
    assert_eq!(heap.allocate(INITIAL_HEAP_SIZE, 16), None);
    assert_eq!(heap.allocate(8, 32), None);
}

#[test]
fn the_heap_passes_its_test() {
    assert!(self_test());
}

#[test]
fn regions_are_mapped_from_the_top() {
    let mut mem = memory(64);
    let mut regions = Regions::new();
    let a = konjac::vm::map(&mut regions, &mut mem, 0, 0x2000, 3, 0x22, None, 0);
    let b = konjac::vm::map(&mut regions, &mut mem, 0, 0x1000, 3, 0x22, None, 0);
    assert_eq!(a, Ok(0x70_0000_0000));
    assert_eq!(b, Ok(0x70_0000_2000));
    let fixed = konjac::vm::map(&mut regions, &mut mem, 0x5000, 0x1000, 1, 0x32, None, 0);
    assert_eq!(fixed, Ok(0x5000));
}

#[test]
fn bad_mappings_are_refused() {
    let mut mem = memory(64);
    let mut regions = Regions::new();
    let mut map = |addr, len, prot, flags, offset| {
        konjac::vm::map(&mut regions, &mut mem, addr, len, prot, flags, None, offset)
    };
    assert_eq!(map(0, 0x1000, 8, 0x22, 0), Err(EINVAL));
    assert_eq!(map(0, 0x1000, 3, 0x22, 5), Err(EINVAL));
    assert_eq!(map(0, 0, 3, 0x22, 0), Err(EINVAL));
    assert_eq!(map(0, 0x1000, 3, 0x20, 0), Err(EINVAL));
    assert_eq!(map(0x5001, 0x1000, 3, 0x32, 0), Err(EINVAL));
    assert_eq!(map(0, 0x1000, 3, 0x21, 0), Err(ENOSYS));
    assert_eq!(map(USER_END - 0x1000, 0x2000, 3, 0x32, 0), Err(EINVAL));
}

#[test]
fn a_fault_brings_in_a_zeroed_page() {
    let mut mem = memory(64);
    let mut regions = Regions::new();
    let mut fs = no_disk();
    let pml4 = current_cr3(&mem);
    assert_eq!(konjac::vm::map(&mut regions, &mut mem, 0x5000, 0x2000, 3, 0x32, None, 0), Ok(0x5000));
    assert!(!konjac::vm::fault(&mut regions, &mut mem, &mut fs, 0x9000, 6));
    assert!(konjac::vm::fault(&mut regions, &mut mem, &mut fs, 0x5123, 6));
    let phys = translate(&mem, pml4, 0x5000).unwrap();
    assert_eq!(load_byte(&mem.ram, phys + 0x123), 0);
    assert_eq!(konjac::vm::unmap(&mut regions, &mut mem, 0x5000, 0x1000), Ok(()));
    assert_eq!(translate(&mem, pml4, 0x5000), None);
    assert!(!konjac::vm::fault(&mut regions, &mut mem, &mut fs, 0x5123, 6));
    assert!(konjac::vm::fault(&mut regions, &mut mem, &mut fs, 0x6123, 6));
}

#[test]
fn a_fault_brings_in_part_of_a_file() {
    let mut mem = memory(64);
    let mut regions = Regions::new();
    let mut fs = no_disk();
    let pml4 = current_cr3(&mem);
    let backing = Some(FileBacking::Static(b"some text"));
    assert_eq!(konjac::vm::map(&mut regions, &mut mem, 0x5000, 0x2000, 1, 0x12, backing, 0), Ok(0x5000));
    assert!(!konjac::vm::fault(&mut regions, &mut mem, &mut fs, 0x5000, 6));
    assert!(konjac::vm::fault(&mut regions, &mut mem, &mut fs, 0x5000, 4));
    let phys = translate(&mem, pml4, 0x5000).unwrap();
    assert_eq!(load_byte(&mem.ram, phys + 5), b't');
    assert_eq!(load_byte(&mem.ram, phys + 9), 0);
    assert!(!konjac::vm::fault(&mut regions, &mut mem, &mut fs, 0x6000, 4));
}

#[test]
fn protection_of_regions_decides_faults() {
    let mut mem = memory(64);
    let mut regions = Regions::new();
    let mut fs = no_disk();
    assert_eq!(konjac::vm::map(&mut regions, &mut mem, 0x5000, 0x1000, 3, 0x32, None, 0), Ok(0x5000));
    assert_eq!(konjac::vm::protect(&mut regions, &mut mem, 0x5000, 0x1000, 1), Ok(()));
    assert!(!konjac::vm::fault(&mut regions, &mut mem, &mut fs, 0x5000, 6));
    assert!(konjac::vm::fault(&mut regions, &mut mem, &mut fs, 0x5000, 4));
    assert_eq!(konjac::vm::protect(&mut regions, &mut mem, 0x9000, 0x1000, 1), Err(ENOMEM));
    let backing = Some(FileBacking::Static(b"shared"));
    assert_eq!(konjac::vm::map(&mut regions, &mut mem, 0x8000, 0x1000, 1, 0x11, backing, 0), Ok(0x8000));
    assert_eq!(konjac::vm::protect(&mut regions, &mut mem, 0x8000, 0x1000, 3), Err(EACCES));
    konjac::vm::destroy(&mut regions, current_cr3(&mem));
    assert_eq!(konjac::vm::protect(&mut regions, &mut mem, 0x8000, 0x1000, 1), Err(ENOMEM));
    assert_eq!(konjac::vm::protect(&mut regions, &mut mem, 0x5000, 0x1000, 1), Ok(()));
}

#[test]
fn address_spaces_do_not_disturb_each_other() {
    let mut mem = memory(128);
    let mut regions = Regions::new();
    let mut fs = no_disk();
    let a = new_address_space(&mut mem);
    let b = new_address_space(&mut mem);
    let kernel = mem.cr3;
    for space in [a, b] {
        mem.cr3 = space;
        assert_eq!(konjac::vm::map(&mut regions, &mut mem, 0x5000, 0x1000, 3, 0x32, None, 0), Ok(0x5000));
        assert!(konjac::vm::fault(&mut regions, &mut mem, &mut fs, 0x5000, 6));
    }
    let (pa, pb) = (translate(&mem, a, 0x5000).unwrap(), translate(&mem, b, 0x5000).unwrap());
    assert_ne!(pa, pb);
    store_byte(&mut mem.ram, pb, 7);
    mem.cr3 = a;
    assert_eq!(konjac::vm::protect(&mut regions, &mut mem, 0x5000, 0x1000, 1), Ok(()));
    assert_eq!(konjac::vm::unmap(&mut regions, &mut mem, 0x5000, 0x1000), Ok(()));
    assert_eq!(translate(&mem, b, 0x5000), Some(pb));
    mem.cr3 = kernel;
    destroy_address_space(&mut mem, &mut regions, a);
    assert_eq!(translate(&mem, b, 0x5000), Some(pb));
    assert_eq!(load_byte(&mem.ram, pb), 7);
}

#[test]
fn the_heap_is_mapped_page_by_page() {
    let mut mem = memory(25_000);
    let pml4 = current_cr3(&mem);
    assert_eq!(konjac::heap::init(&mut mem), Ok(()));
    assert!(translate(&mem, pml4, HEAP_BASE).is_some());
    assert!(translate(&mem, pml4, HEAP_BASE + INITIAL_HEAP_SIZE - 4096).is_some());
    assert!(translate(&mem, pml4, HEAP_BASE + INITIAL_HEAP_SIZE).is_none());
    let mut small = memory(100);
    assert_eq!(
        konjac::heap::init(&mut small),
        Err("heap::init: out of physical memory mapping the initial heap")
    );
    let pmm = Pmm::new();
    let mut fresh = Memory { ram: vec![0u64; 25_000 * 512], pmm, cr3: 0x10_0000, nx: true };
    let map = [
        MemmapEntry { base: 0, length: 0x20_0000, kind: MemmapKind::Reserved },
        usable(0x20_0000, 25_000 * 4096 - 0x20_0000),
    ];
    assert!(konjac::memory::init(&mut fresh, 7, &map).is_err());
    assert_eq!(hhdm_offset(&fresh.pmm), 7);
}

#[test]
fn tables_in_order_are_told_from_others() {
    let mut mem = memory(64);
    assert!(survey(&mem, mem.cr3));
    for page in [0x40_0000, 0x40_1000, 0x7F00_0000_0000, 0xFFFF_8000_0000_0000] {
        let frame = alloc_frame(&mut mem.pmm).unwrap();
        map_page(&mut mem, page, frame, PAGE_WRITABLE);
    }
    let root = mem.cr3;
    assert!(survey(&mem, root));
    assert!(!survey(&mem, root + 8));
    assert!(!survey(&mem, 64 * 4096));
    let word = (root / 8) as usize;
    let link = mem.ram[word];
    // Two entries that link one table.
    mem.ram[word + 1] = link;
    assert!(!survey(&mem, root));
    // A table outside memory.
    mem.ram[word + 1] = 0x7FFF_F000 | 1;
    assert!(!survey(&mem, root));
    // A root that links itself.
    mem.ram[word + 1] = root | 1;
    assert!(!survey(&mem, root));
    // A table that is free to be handed out.
    mem.ram[word + 1] = 63 * 4096 | 1;
    assert!(!survey(&mem, root));
    // A large page is no table.
    mem.ram[word + 1] = 63 * 4096 | 0x81;
    assert!(survey(&mem, root));
}

#[test]
fn memory_maps_are_tested() {
    assert!(map_is_valid(&[usable(0x1000, 0x8000)]));
    assert!(map_is_valid(&[usable(0x1000, 0x1800), usable(0x2800, 0x1000)]));
    assert!(!map_is_valid(&[]));
    assert!(!map_is_valid(&[usable(0x1000, 0x3000), usable(0x3000, 0x2000)]));
    assert!(!map_is_valid(&[usable(0x1000, u64::MAX)]));
    assert!(!map_is_valid(&[usable(0x4000_0000_0000, 0x1000)]));
}

#[test]
fn memory_is_set_up_where_it_is_in_order() {
    let reserved = |base, length| MemmapEntry { base, length, kind: MemmapKind::Reserved };
    let booted = || Memory { ram: vec![0u64; 512 * 64], pmm: Pmm::new(), cr3: 0, nx: false };
    let map = [reserved(0, 0x1000), usable(0x1000, 63 * 4096)];
    // There is not enough memory for the whole heap.
    let mut mem = booted();
    let r = start(&mut mem, 0, &map);
    assert!(r.is_err() && r != Err(NOT_STARTABLE));
    assert!(translate(&mem, 0, HEAP_BASE).is_some());
    assert!(survey(&mem, 0));
    let refused = |change: fn(&mut Memory), map: &[MemmapEntry]| {
        let mut mem = booted();
        change(&mut mem);
        start(&mut mem, 0, map)
    };
    assert_eq!(refused(|_| {}, &[]), Err(NOT_STARTABLE));
    assert_eq!(refused(|_| {}, &[map[0], usable(0x1000, 64 * 4096)]), Err(NOT_STARTABLE));
    assert_eq!(refused(|mem| mem.ram[300] = 1, &map), Err(NOT_STARTABLE));
    assert_eq!(refused(|mem| mem.cr3 = 0x2000, &map), Err(NOT_STARTABLE));
    assert_eq!(
        refused(|mem| mem.ram[3] = 0x1_0001, &[reserved(0, 0x2_0000), usable(0x2_0000, 32 * 4096)]),
        Err(NOT_STARTABLE)
    );
}

#[test]
fn setting_memory_up_keeps_the_offset() {
    let mut mem = Memory { ram: vec![0u64; 512 * 64], pmm: Pmm::new(), cr3: 0, nx: true };
    let map = [MemmapEntry { base: 0, length: 0x1000, kind: MemmapKind::Reserved }, usable(0x1000, 63 * 4096)];
    assert!(start(&mut mem, 0xFFFF_8000_0000_0000, &map).is_err());
    assert_eq!(hhdm_offset(&mem.pmm), 0xFFFF_8000_0000_0000);
    assert!(mem.nx);
    assert_eq!(mem.cr3, 0);
}

#[test]
fn address_spaces_in_order_are_told_from_others() {
    let mut mem = memory(64);
    let root = mem.cr3;
    assert!(survey_space(&mem, root));
    let page = alloc_frame(&mut mem.pmm).unwrap();
    map_page(&mut mem, 0x40_0000, page, PAGE_USER);
    assert!(survey_space(&mem, root));
    assert!(survey_known(&mem, root, 4, 256));
    // The same frame at two addresses.
    map_page(&mut mem, 0x40_1000, page, PAGE_USER);
    assert!(survey(&mem, root));
    assert!(!survey_space(&mem, root));
    unmap_page(&mut mem, root, 0x40_1000);
    assert!(survey_space(&mem, root));
    // A table where a program could write it.
    map_page(&mut mem, 0x40_1000, root, PAGE_USER);
    assert!(!survey_space(&mem, root));
    unmap_page(&mut mem, root, 0x40_1000);
    // A frame that is free, and one that the allocator does not have.
    map_page(&mut mem, 0x40_1000, 60 * 4096, PAGE_USER);
    assert!(!survey_space(&mem, root));
    map_page(&mut mem, 0x40_1000, 64 * 4096, PAGE_USER);
    assert!(!survey_space(&mem, root));
    assert!(!survey_known(&mem, root, 4, 256));
    unmap_page(&mut mem, root, 0x40_1000);
    // What the kernel has mapped may be shared.
    map_page(&mut mem, 0xFFFF_8000_0000_0000, page, 0);
    assert!(survey_space(&mem, root));
}
