use lib::errno::Errno;
use lib::memory::Memory;
use lib::mmap::{sys_mmap_private, sys_munmap};
use lib::page_allocator::PageAllocator;
use lib::page_directory::{KernelTables, PD};
use lib::vma::{AreaFlag, VALID_USER_START};
use lib::vmemory::VMemory;

const PAGE_SIZE: usize = 4096;
const ZERO_PAGE: usize = 0x7000;

fn setup(frames: usize) -> (Memory, PageAllocator) {
    let mut kernel = PD::uninit();
    VMemory::init(&mut kernel, 0x4000_0000, 0x40_0000);
    let vm = VMemory { normal_pfn: 0..frames, vmalloc_pfn: 0..0, high_pfn: 0..0 };
    let mut pa = PageAllocator::init(&vm, 1024);
    let pd = PD::new(&kernel, &mut pa).unwrap();
    (Memory::new(0x4000_0000, pd), pa)
}

#[test]
fn sys_mmap_rounds_up_to_pages() {
    let (mut mem, mut pa) = setup(1024);
    assert_eq!(sys_mmap_private(&mut mem, 0x1001, PAGE_SIZE, ZERO_PAGE, &mut pa), Err(Errno::EINVAL));
    assert_eq!(sys_mmap_private(&mut mem, 0, 0, ZERO_PAGE, &mut pa), Err(Errno::EINVAL));
    let start = sys_mmap_private(&mut mem, 0, PAGE_SIZE + 1, ZERO_PAGE, &mut pa).unwrap();
    assert_eq!(start, VALID_USER_START);
    let areas = mem.get_vma().get_areas();
    assert_eq!(areas.len(), 1);
    assert_eq!(areas[0].end - areas[0].start, 2 * PAGE_SIZE);
    assert!(mem.query_flags_range(start, 2 * PAGE_SIZE, AreaFlag::readable().union(AreaFlag::writable())));
    let kt = KernelTables::new();
    assert_eq!(mem.get_pd().lookup(&kt, start + PAGE_SIZE), Some(ZERO_PAGE));
}

#[test]
fn sys_munmap_checks_its_arguments() {
    let (mut mem, mut pa) = setup(1024);
    let start = sys_mmap_private(&mut mem, 0, 2 * PAGE_SIZE, ZERO_PAGE, &mut pa).unwrap();
    assert_eq!(sys_munmap(&mut mem, start + 1, 2 * PAGE_SIZE, ZERO_PAGE, &mut pa), Err(Errno::EINVAL));
    assert_eq!(sys_munmap(&mut mem, start, PAGE_SIZE + 1, ZERO_PAGE, &mut pa), Err(Errno::EINVAL));
    assert_eq!(sys_munmap(&mut mem, start, 0, ZERO_PAGE, &mut pa), Err(Errno::EINVAL));
    assert_eq!(sys_munmap(&mut mem, start, PAGE_SIZE, ZERO_PAGE, &mut pa), Err(Errno::EINVAL));
    assert_eq!(sys_munmap(&mut mem, start, 2 * PAGE_SIZE, ZERO_PAGE, &mut pa), Ok(0));
    assert!(mem.get_vma().get_areas().is_empty());
}

#[test]
fn mapped_file_keeps_its_part() {
    let m = lib::mapped_file::MappedFile::new(7u32, -4096, 8192);
    assert_eq!(m.file, 7);
    assert_eq!(m.offset, -4096);
    assert_eq!(m.len, 8192);
}
