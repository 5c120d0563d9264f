//! Finding out whether the kernel's state is in order, and switching tasks
//! only where it is.
use crate::commands::System;
use crate::fat16::{sector_view, Disk, Fs};
use crate::kernel::Kernel;
use crate::keyboard::Keyboard;
use crate::paging::{current_cr3, known, target, Mem, Memory};
use crate::space::space_ok;
use crate::survey::{survey_known, survey_space};
use crate::task::{
    loaded_after, scheduled, spaces_known, switch_from, yield_now, Switch, TaskState, TaskTable, MAX_OPEN_FILES,
    MAX_TASKS, NSIG,
};
use crate::vm::{Region, Regions, CAPACITY, MAX_OFFSET, PAGE, USER_END};
use crate::volume::{image_ok, DirLocation, Layout};
use vstd::prelude::*;

verus! {

/// Whether memory and the allocator of its frames agree.
pub fn memory_in_order(mem: &Memory) -> (r: bool)
    ensures
        r == mem.wf(),
{
    if !crate::pmm::in_order(&mem.pmm) {
        return false;
    }
    let frames: u64 = crate::pmm::stats(&mem.pmm).0;
    let words: u64 = mem.ram.len() as u64;
    words <= 0x2_0000_0000_0000 && frames <= words / 512
}

fn region_in_order(r: &Region) -> (ok: bool)
    ensures
        ok == r.wf(),
{
    PAGE <= r.start && r.start < r.end && r.end <= USER_END && r.start % PAGE == 0 && r.end % PAGE == 0 && r.offset
        % PAGE == 0 && r.offset as u128 + (r.end - r.start) as u128 <= MAX_OFFSET as u128 && r.prot <= 7
}

/// Whether every mapped range is well-formed and none overlaps another of its
/// address space.
pub fn regions_in_order(regions: &Regions) -> (r: bool)
    ensures
        r == regions.wf(),
{
    let n: usize = regions.table.len();
    if n != CAPACITY {
        return false;
    }
    for i in 0..n
        invariant
            n == CAPACITY,
            n == regions@.len(),
            forall|k: int| 0 <= k < i ==> (#[trigger] regions@[k] matches Some(x) ==> x.wf()),
            forall|a: int, b: int|
                0 <= a < b < i && regions@[a] is Some && regions@[b] is Some ==> !(#[trigger] regions@[a]->0).overlaps(
                    #[trigger] regions@[b]->0,
                ),
    {
        if let Some(x) = &regions.table[i] {
            if !region_in_order(x) {
                assert(regions@[i as int] is Some);
                return false;
            }
            for j in 0..i
                invariant
                    i < n,
                    n == CAPACITY,
                    n == regions@.len(),
                    regions@[i as int] == Some(*x),
                    forall|k: int| 0 <= k < i ==> (#[trigger] regions@[k] matches Some(x) ==> x.wf()),
                    forall|a: int|
                        0 <= a < j && regions@[a] is Some ==> !(#[trigger] regions@[a]->0).overlaps(*x),
            {
                if let Some(y) = &regions.table[j] {
                    if y.cr3 == x.cr3 && y.start < x.end && x.start < y.end {
                        assert((regions@[j as int]->0).overlaps(regions@[i as int]->0));
                        return false;
                    }
                }
            }
        }
    }
    true
}

/// Whether the table of tasks is complete, and every task in it refers to
/// what is there.
pub fn tasks_in_order(tasks: &TaskTable) -> (r: bool)
    ensures
        r == tasks.wf(),
{
    if tasks.slots.len() != MAX_TASKS || tasks.current >= MAX_TASKS || tasks.files.len() != MAX_TASKS {
        return false;
    }
    for k in 0..MAX_TASKS
        invariant
            tasks@.slots.len() == MAX_TASKS,
            tasks@.files.len() == MAX_TASKS,
            forall|j: int| 0 <= j < k ==> (#[trigger] tasks@.files[j]).entries@.len() == MAX_OPEN_FILES,
            forall|j: int|
                0 <= j < k ==> (#[trigger] tasks@.slots[j] matches Some(t) ==> t.files < MAX_TASKS
                    && t.sig_handlers@.len() == NSIG),
    {
        if tasks.files[k].entries.len() != MAX_OPEN_FILES {
            assert(tasks@.files[k as int].entries@.len() != MAX_OPEN_FILES);
            return false;
        }
        if let Some(t) = &tasks.slots[k] {
            if t.files >= MAX_TASKS || t.sig_handlers.len() != NSIG {
                assert(tasks@.slots[k as int] is Some);
                return false;
            }
        }
    }
    true
}

/// Whether every sector of a disk that can be read has the size of one.
pub fn disk_in_order(disk: &Disk) -> (r: bool)
    ensures
        r == image_ok(disk@),
{
    let n: usize = disk.sectors.len();
    for i in 0..n
        invariant
            n == disk.sectors@.len(),
            forall|k: int| 0 <= k < i ==> (#[trigger] disk@[k] matches Ok(s) ==> s.len() == 512),
    {
        assert(disk@[i as int] == sector_view(disk.sectors@[i as int]));
        if let Ok(s) = &disk.sectors[i] {
            if s.len() != 512 {
                return false;
            }
        }
    }
    true
}

fn layout_in_order(l: &Layout) -> (r: bool)
    ensures
        r == l.wf(),
{
    if l.bytes_per_sector != 512 || l.sectors_per_cluster > 255 || l.fat_start_lba > 0xFFFF || l.fat_sectors == 0
        || l.fat_sectors > 0xFFFF || l.num_fats > 255 || l.root_entry_count > 0xFFFF {
        return false;
    }
    assert(0 <= l.num_fats * l.fat_sectors <= 255 * 0xFFFF) by (nonlinear_arith)
        requires
            l.num_fats <= 255,
            l.fat_sectors <= 0xFFFF,
    ;
    let root: u32 = l.fat_start_lba + l.num_fats * l.fat_sectors;
    let sectors: u32 = (l.root_entry_count * 32 + 511) / 512;
    l.root_dir_start_lba == root && l.root_dir_sectors == sectors && l.data_start_lba == root + sectors
}

/// Whether the driver's disk, layout and current directory are in order.
pub fn volume_in_order(fs: &Fs) -> (r: bool)
    ensures
        r == fs.wf(),
{
    if !disk_in_order(&fs.disk) {
        return false;
    }
    if let Some(l) = &fs.layout {
        if !layout_in_order(l) {
            return false;
        }
    }
    let n: usize = fs.stack.len();
    assert(fs.place().stack.len() == n);
    if n == 0 {
        match fs.location {
            DirLocation::Root => true,
            DirLocation::Cluster(_) => false,
        }
    } else {
        assert(fs.place().stack.last() == (fs.stack@[n - 1].0@, fs.stack@[n - 1].1));
        match fs.location {
            DirLocation::Root => false,
            DirLocation::Cluster(c) => c == fs.stack[n - 1].1,
        }
    }
}

/// Whether everything that system calls and faults act on is in order.
pub fn kernel_in_order(k: &Kernel) -> (r: bool)
    ensures
        r == k.wf(),
{
    memory_in_order(&k.mem) && crate::pmm::is_ready(&k.mem.pmm) && regions_in_order(&k.regions) && tasks_in_order(
        &k.tasks,
    ) && volume_in_order(&k.fs) && k.tasks.slots[k.tasks.current].is_some() && survey_space(
        &k.mem,
        current_cr3(&k.mem),
    )
}

fn keyboard_in_order(k: &Keyboard) -> (r: bool)
    ensures
        r == k.wf(),
{
    let chars: usize = k.chars.slots.len();
    let events: usize = k.events.slots.len();
    2 <= chars && chars <= 1024 && k.chars.head < chars && k.chars.tail < chars && 2 <= events && events <= 1024
        && k.events.head < events && k.events.tail < events
}

/// Whether everything that the shell works on is in order, the kernel
/// included.
pub fn system_in_order(sys: &System) -> (r: bool)
    ensures
        r == (sys.kernel.wf() && sys.keyboard.wf()),
        r ==> sys.wf() && sys.mapped(),
{
    proof {
        reveal(space_ok);
    }
    kernel_in_order(&sys.kernel) && keyboard_in_order(&sys.keyboard)
}

/// Whether every address space that reaping may tear down has its tables in
/// order.
pub fn spaces_in_order(tasks: &TaskTable, mem: &Memory) -> (r: bool)
    requires
        tasks.wf(),
        mem.wf(),
    ensures
        r == spaces_known(tasks@, mem@),
{
    for i in 0..MAX_TASKS
        invariant
            tasks.wf(),
            mem.wf(),
            forall|j: int|
                0 <= j < i ==> (#[trigger] tasks@.slots[j] matches Some(t) ==> t.state == TaskState::Terminated
                    && t.cr3 != tasks@.kernel_cr3 ==> known(mem@.ram, mem@.frames.used.len(), t.cr3, 4, 256)),
    {
        if let Some(t) = &tasks.slots[i] {
            if t.state == TaskState::Terminated && t.cr3 != tasks.kernel_cr3 && !survey_known(mem, t.cr3, 4, 256) {
                assert(tasks@.slots[i as int] is Some);
                return false;
            }
        }
    }
    true
}

// ---- Switching ----

pub const SPACE_LOST: &'static str = "the tables of an address space are not in order";

/// Whether the switch that the scheduler would make leaves the kernel in
/// order: no address space that is torn down or switched to is damaged.
pub open spec fn can_switch(k: Kernel, now: u64) -> bool {
    let (tasks, _, frames) = scheduled(k.tasks@, k.regions@, k.mem@, now);
    let cr3 = loaded_after(switch_from(k.tasks@, tasks, k.mem.cr3), k.mem.cr3);
    &&& spaces_known(k.tasks@, k.mem@)
    &&& tasks.running() is Some
    &&& space_ok(Mem { ram: k.mem.ram@, frames }, target(cr3))
}

/// Lets the next ready task run, if there is one, and tests that the kernel
/// is in order then. It stays as it was where what is to be torn down is not
/// in order; where the address space of the next task is not, the kernel
/// cannot go on.
pub fn give_way(k: &mut Kernel, now: u64) -> (r: Result<Option<Switch>, &'static str>)
    requires
        old(k).wf(),
    ensures
        r is Ok <==> can_switch(*old(k), now),
        r is Ok ==> final(k).wf(),
        r matches Err(e) ==> e == SPACE_LOST,
        final(k).fs == old(k).fs,
        final(k).mem.ram == old(k).mem.ram,
        final(k).mem.nx == old(k).mem.nx,
        final(k).mem.pmm.ready() == old(k).mem.pmm.ready(),
        final(k).mem.pmm.offset() == old(k).mem.pmm.offset(),
        if spaces_known(old(k).tasks@, old(k).mem@) {
            let switch = switch_from(old(k).tasks@, final(k).tasks@, old(k).mem.cr3);
            &&& (final(k).tasks@, final(k).regions@, final(k).mem@.frames) == scheduled(
                old(k).tasks@,
                old(k).regions@,
                old(k).mem@,
                now,
            )
            &&& final(k).mem.cr3 == loaded_after(switch, old(k).mem.cr3)
            &&& r is Ok ==> r == Ok::<Option<Switch>, &'static str>(switch)
        } else {
            *final(k) == *old(k)
        },
{
    if !spaces_in_order(&k.tasks, &k.mem) {
        return Err(SPACE_LOST);
    }
    let switch = yield_now(&mut k.tasks, &mut k.regions, &mut k.mem, now);
    if k.tasks.slots[k.tasks.current].is_some() && survey_space(&k.mem, current_cr3(&k.mem)) {
        Ok(switch)
    } else {
        Err(SPACE_LOST)
    }
}

} // verus!
