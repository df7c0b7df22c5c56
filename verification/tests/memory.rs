use lib::errno::Errno;
use lib::memory::{
    copy_from_user_page, copy_to_user_page, copy_user_to_user_page, memset_to_user_page, page_of, zero_page_content,
    LoadableSection, Memory, PhysMem,
};
use lib::page_allocator::PageAllocator;
use lib::page_directory::{KernelTables, PD};
use lib::vma::{AreaFlag, VALID_USER_START};
use lib::verify::{query_max_readable_len, user_strlen, verify_path, verify_region};
use lib::vmemory::VMemory;

const PAGE_SIZE: usize = 4096;
const ZERO_PAGE: usize = 0x7000;

fn setup() -> (Memory, PageAllocator) {
    let mut kernel = PD::uninit();
    VMemory::init(&mut kernel, 0x4000_0000, 0x40_0000);
    let vm = VMemory { normal_pfn: 0..1024, vmalloc_pfn: 0..0, high_pfn: 0..0 };
    let mut pa = PageAllocator::init(&vm, 1024);
    let pd = PD::new(&kernel, &mut pa).unwrap();
    (Memory::new(0x4000_0000, pd), pa)
}

fn rw() -> AreaFlag {
    AreaFlag::readable().union(AreaFlag::writable())
}

#[test]
fn mmap_maps_zero_pages() {
    let (mut mem, mut pa) = setup();
    let start = mem.mmap_private(0, 3, rw(), ZERO_PAGE, &mut pa).unwrap();
    assert_eq!(start, VALID_USER_START);
    let kt = KernelTables::new();
    for i in 0..3 {
        assert_eq!(mem.get_pd().lookup(&kt, start + i * PAGE_SIZE), Some(ZERO_PAGE));
    }
    assert_eq!(mem.get_pd().lookup(&kt, start + 3 * PAGE_SIZE), None);
    assert!(mem.query_flags_range(start, 3 * PAGE_SIZE, AreaFlag::readable()));
    assert!(mem.query_flags_range(start, 3 * PAGE_SIZE, rw()));
    assert!(!mem.query_flags_range(start, 3 * PAGE_SIZE + 1, AreaFlag::readable()));
    assert!(!mem.query_flags_range(start, usize::MAX, AreaFlag::readable()));
    assert_eq!(mem.get_vma().get_areas().len(), 1);
}

#[test]
fn mmap_at_fixed_address() {
    let (mut mem, mut pa) = setup();
    let start = mem.mmap_private(0x1000_0000, 2, AreaFlag::readable(), ZERO_PAGE, &mut pa).unwrap();
    assert_eq!(start, 0x1000_0000);
    // taken: the next request at the same place goes to the first gap
    let other = mem.mmap_private(0x1000_0000, 2, AreaFlag::readable(), ZERO_PAGE, &mut pa).unwrap();
    assert_eq!(other, VALID_USER_START);
    assert!(mem.query_flags_range(start, 2 * PAGE_SIZE, AreaFlag::readable()));
    assert!(!mem.query_flags_range(start, 2 * PAGE_SIZE, rw()));
}

#[test]
fn munmap_whole_area_only() {
    let (mut mem, mut pa) = setup();
    let start = mem.mmap_private(0, 4, rw(), ZERO_PAGE, &mut pa).unwrap();
    assert_eq!(mem.munmap_private(start, 2, ZERO_PAGE, &mut pa), Err(Errno::EINVAL));
    assert_eq!(mem.munmap_private(start + PAGE_SIZE, 3, ZERO_PAGE, &mut pa), Err(Errno::EINVAL));
    // every page mapped the page of zeros: nothing to give back
    assert_eq!(mem.munmap_private(start, 4, ZERO_PAGE, &mut pa), Ok(()));
    // the areas are as before the mapping
    assert!(mem.get_vma().get_areas().is_empty());
    let kt = KernelTables::new();
    assert_eq!(mem.get_pd().lookup(&kt, start), None);
    assert_eq!(mem.munmap_private(start, 4, ZERO_PAGE, &mut pa), Err(Errno::EINVAL));
    assert!(!mem.query_flags_range(start, PAGE_SIZE, AreaFlag::readable()));
}

#[test]
fn mmap_out_of_room() {
    let (mut mem, mut pa) = setup();
    let all = (0xc000_0000 - VALID_USER_START) / PAGE_SIZE;
    assert_eq!(mem.mmap_private(0, all + 1, rw(), ZERO_PAGE, &mut pa), Err(Errno::ENOMEM));
}

#[test]
fn page_layout_of_data() {
    let data: Vec<u8> = (0..5000u32).map(|x| x as u8).collect();
    let first = page_of(&data, 0);
    assert_eq!(first.len(), PAGE_SIZE);
    assert_eq!(&first[..], &data[..PAGE_SIZE]);
    let second = page_of(&data, 1);
    assert_eq!(&second[..5000 - PAGE_SIZE], &data[PAGE_SIZE..]);
    assert!(second[5000 - PAGE_SIZE..].iter().all(|b| *b == 0));
    assert!(zero_page_content().iter().all(|b| *b == 0));
    assert_eq!(zero_page_content().len(), PAGE_SIZE);
}

#[test]
fn phys_mem_log() {
    let mut m = PhysMem::new();
    assert_eq!(m.len(), 0);
    m.write_page(0x3000, vec![1, 2, 3]);
    m.write_page(0x5000, vec![4]);
    assert_eq!(m.len(), 2);
    let (addr, bytes) = m.get(1);
    assert_eq!(addr, 0x5000);
    assert_eq!(bytes, &vec![4]);
}

#[test]
fn clone_keeps_areas_and_zero_pages() {
    let (mut mem, mut pa) = setup();
    let start = mem.mmap_private(0, 2, rw(), ZERO_PAGE, &mut pa).unwrap();
    let mut kernel = PD::uninit();
    VMemory::init(&mut kernel, 0x4000_0000, 0x40_0000);
    let mut phys = PhysMem::new();
    let mut copy = mem.clone(&kernel, ZERO_PAGE, &mut pa, &mut phys).unwrap();
    assert_eq!(copy.get_vma().get_areas(), mem.get_vma().get_areas());
    let kt = KernelTables::new();
    assert_eq!(copy.get_pd().lookup(&kt, start), Some(ZERO_PAGE));
    assert_eq!(copy.get_pd().lookup(&kt, start + PAGE_SIZE), Some(ZERO_PAGE));
    // nothing to copy: no page was written
    assert_eq!(phys.len(), 0);
}

#[test]
fn clone_copies_written_pages() {
    let mut kernel = PD::uninit();
    VMemory::init(&mut kernel, 0x4000_0000, 0x40_0000);
    let vm = VMemory { normal_pfn: 0..2048, vmalloc_pfn: 0..0, high_pfn: 0..0 };
    let mut pa = PageAllocator::init(&vm, 2048);
    let mut phys = PhysMem::new();
    let data: Vec<u8> = (0..5000u32).map(|x| (x % 251) as u8).collect();
    let section = LoadableSection { vaddr: 0x0804_8100, data: data.clone(), mem_size: 6000, flags: rw() };
    let trampoline = vec![0xcc_u8; 10];
    let mut mem = Memory::from_elf(0xb000_0000, 2, 0x4000_0000, &trampoline, &vec![section], &kernel, &mut pa, &mut phys)
        .unwrap();
    let written = phys.len();
    // two stack pages, one trampoline page, two section pages
    assert_eq!(written, 5);
    let kt = KernelTables::new();
    let src = mem.get_pd().lookup(&kt, 0x0804_8000).unwrap();

    let mut copy = mem.clone(&kernel, ZERO_PAGE, &mut pa, &mut phys).unwrap();
    assert_eq!(copy.get_vma().get_areas(), mem.get_vma().get_areas());
    let dst = copy.get_pd().lookup(&kt, 0x0804_8000).unwrap();
    assert_ne!(src, dst);
    // every page of every area got a fresh copy
    assert_eq!(phys.len(), 2 * written);
    let last_write = |p: usize| {
        let mut found = None;
        for i in 0..phys.len() {
            let (a, bytes) = phys.get(i);
            if a == p {
                found = Some(bytes.clone());
            }
        }
        found
    };
    let src_bytes = last_write(src).unwrap();
    assert_eq!(last_write(dst).unwrap(), src_bytes);
    assert!(src_bytes[..0x100].iter().all(|b| *b == 0));
    assert_eq!(&src_bytes[0x100..], &data[..PAGE_SIZE - 0x100]);
}

#[test]
fn from_elf_lays_out_sections() {
    let mut kernel = PD::uninit();
    VMemory::init(&mut kernel, 0x4000_0000, 0x40_0000);
    let vm = VMemory { normal_pfn: 0..1024, vmalloc_pfn: 0..0, high_pfn: 0..0 };
    let mut pa = PageAllocator::init(&vm, 1024);
    let mut phys = PhysMem::new();
    let text = LoadableSection { vaddr: 0x0804_8000, data: vec![1, 2, 3], mem_size: 3, flags: AreaFlag::readable() };
    let bss = LoadableSection { vaddr: 0x0805_0010, data: Vec::new(), mem_size: 0x2000, flags: rw() };
    let mut mem = Memory::from_elf(0xb000_0000, 1, 0x4000_0100, &[9u8; 4], &vec![text, bss], &kernel, &mut pa, &mut phys)
        .unwrap();
    let areas = mem.get_vma().get_areas().clone();
    let spans: Vec<(usize, usize)> = areas.iter().map(|a| (a.start, a.end)).collect();
    assert_eq!(
        spans,
        vec![(0x0804_8000, 0x0804_9000), (0x0805_0000, 0x0805_3000), (0x4000_1000, 0x4000_2000), (0xafff_f000, 0xb000_0000)]
    );
    // read-only text, writable data
    let kt = KernelTables::new();
    assert!(mem.get_pd().lookup(&kt, 0x0804_8000).is_some());
    assert!(mem.query_flags_range(0x0805_0000, 0x3000, rw()));
    assert!(!mem.query_flags_range(0x0804_8000, 1, rw()));
    // one page for the stack, the trampoline and the text, three for the data
    assert_eq!(phys.len(), 6);
}

#[test]
fn argv_layout() {
    let args = vec![b"sh".to_vec(), b"-c".to_vec()];
    let (bytes, ptrs) = Memory::copy_c_argv(Some(&args), 0x5000, 100).unwrap();
    assert_eq!(bytes, b"sh\0-c\0".to_vec());
    assert_eq!(ptrs, vec![0x5000, 0x5003, 0]);
    let (bytes, ptrs) = Memory::copy_c_argv(None, 0x5000, 100).unwrap();
    assert!(bytes.is_empty());
    assert_eq!(ptrs, vec![0]);
    assert!(matches!(Memory::copy_c_argv(Some(&args), 0x5000, 4), Err(Errno::E2BIG)));
}

#[test]
fn push_string_array_places_strings_then_pointers() {
    let (mut mem, mut pa) = setup();
    let mut phys = PhysMem::new();
    let args = vec![b"ls".to_vec(), b"-la".to_vec()];
    let (array, count) = mem.push_string_array(Some(&args), 4096, &mut pa, &mut phys).unwrap();
    assert_eq!(count, 2);
    // the strings at the next page boundary, the array at the one after them
    assert_eq!(array, 0x4000_1000);
    let word = core::mem::size_of::<usize>();
    let (_, strings) = phys.get(0);
    assert_eq!(&strings[..7], b"ls\0-la\0");
    let (_, pointers) = phys.get(1);
    let first = usize::from_le_bytes(pointers[..word].try_into().unwrap());
    let second = usize::from_le_bytes(pointers[word..2 * word].try_into().unwrap());
    let last = usize::from_le_bytes(pointers[2 * word..3 * word].try_into().unwrap());
    assert_eq!((first, second, last), (0x4000_0000, 0x4000_0003, 0));
    assert_eq!(
        mem.push_string_array(Some(&vec![vec![b'x'; 5000]]), 4096, &mut pa, &mut phys),
        Err(Errno::E2BIG)
    );
}

#[test]
fn readable_length_and_strings() {
    let (mut mem, mut pa) = setup();
    let a = mem.mmap_private(0x1000_0000, 2, AreaFlag::readable(), ZERO_PAGE, &mut pa).unwrap();
    let b = mem.mmap_private(0x1000_2000, 1, rw(), ZERO_PAGE, &mut pa).unwrap();
    assert_eq!((a, b), (0x1000_0000, 0x1000_2000));
    let vma = mem.get_vma();
    assert_eq!(query_max_readable_len(0x1000_0010, vma, 100), 100);
    // three readable pages in a row, across the two areas
    assert_eq!(query_max_readable_len(0x1000_0010, vma, 0x10_0000), 3 * PAGE_SIZE - 0x10);
    assert_eq!(query_max_readable_len(0x2000_0000, vma, 10), 0);
    assert_eq!(user_strlen(b"abc\0def"), Ok(3));
    assert_eq!(user_strlen(b"abc"), Err(Errno::EFAULT));
    assert_eq!(verify_path(b"\0"), Err(Errno::EINVAL));
    assert_eq!(verify_path(b"/bin\0"), Ok(4));
    assert_eq!(verify_region(0x1000_0000, 3 * PAGE_SIZE, &mem, AreaFlag::readable()), Ok(()));
    assert_eq!(verify_region(0x1000_0000, 3 * PAGE_SIZE, &mem, rw()), Err(Errno::EFAULT));
    assert_eq!(verify_region(0x1000_2000, PAGE_SIZE, &mem, rw()), Ok(()));
}

#[test]
fn page_copies() {
    let mut m = PhysMem::new();
    assert_eq!(copy_from_user_page(&m, 0x3000), None);
    // an unknown page copies to nothing
    copy_user_to_user_page(&mut m, 0x3000, 0x4000).unwrap();
    assert_eq!(m.len(), 0);
    memset_to_user_page(&mut m, 0x3000, 0xab).unwrap();
    copy_user_to_user_page(&mut m, 0x3000, 0x4000).unwrap();
    assert_eq!(copy_from_user_page(&m, 0x4000), Some(vec![0xab; PAGE_SIZE]));
    let page: Vec<u8> = (0..PAGE_SIZE).map(|x| x as u8).collect();
    copy_to_user_page(&mut m, &page, 0x3000).unwrap();
    assert_eq!(copy_from_user_page(&m, 0x3000), Some(page));
    assert_eq!(copy_from_user_page(&m, 0x4000), Some(vec![0xab; PAGE_SIZE]));
}

#[test]
fn copy_c_argv_high_base() {
    let strings = vec![b"ab".to_vec(), b"c".to_vec()];
    let base = usize::MAX - 10;
    let (bytes, ptrs) = Memory::copy_c_argv(Some(&strings), base, usize::MAX).unwrap();
    assert_eq!(bytes, b"ab\0c\0".to_vec());
    assert_eq!(ptrs, vec![base, base + 3, 0]);
}
