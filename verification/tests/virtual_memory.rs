use lib::constant::{KMAP_OFFSET, VMALLOC_OFFSET, VM_OFFSET};
use lib::page_allocator::PageAllocator;
use lib::page_directory::{AddressSpace, KernelTables, PD};
use lib::kernel_map::{init_arbitrary_map, init_fixed_map};
use lib::paging::PageFlag;
use lib::virtual_allocator::VirtualAllocator;
use lib::vmalloc::{AddressTree, Page};
use lib::vmemory::VMemory;

const PAGE_SIZE: usize = 4096;
const MB: usize = 0x10_0000;

fn pages(normal_frames: usize) -> PageAllocator {
    let vm = VMemory { normal_pfn: 0..normal_frames, vmalloc_pfn: 0..0, high_pfn: 0..0 };
    PageAllocator::init(&vm, normal_frames)
}

/// The kernel directory for 1 GiB of memory, with the entries of the vmalloc and kmap
/// areas pointing to the shared kernel tables.
fn kernel_pd() -> PD {
    let mut pd = PD::uninit();
    VMemory::init(&mut pd, 0x4000_0000, 0x40_0000);
    init_arbitrary_map(&mut pd, 0x10_0000, 0x20_0000);
    pd
}

#[test]
fn address_space_parts() {
    assert_eq!(AddressSpace::identify(0x1000), AddressSpace::User);
    assert_eq!(AddressSpace::identify(VM_OFFSET), AddressSpace::Kernel);
    assert_eq!(AddressSpace::identify(VMALLOC_OFFSET), AddressSpace::Vmalloc);
    assert_eq!(AddressSpace::identify(KMAP_OFFSET), AddressSpace::Kmap);
    assert_eq!(AddressSpace::identify(0xfec0_0000), AddressSpace::HighIO);
    assert_eq!(PD::addr_to_index(0xc040_3123), (0x301, 3));
}

#[test]
fn vmemory_zones() {
    let mut pd = PD::uninit();
    let vm = VMemory::init(&mut pd, 0x4000_0000, 0x40_0000);
    // the linear map starts after the kernel image
    assert_eq!(vm.normal_pfn.start, (VM_OFFSET + 0x40_0000) / PAGE_SIZE);
    assert_eq!(vm.vmalloc_pfn.start, VMALLOC_OFFSET / PAGE_SIZE);
    // 896 MiB of the linear map are mapped; what is left goes to vmalloc first
    assert_eq!(vm.normal_pfn.end, VMALLOC_OFFSET / PAGE_SIZE);
    assert_eq!(vm.vmalloc_pfn.end - vm.vmalloc_pfn.start, (0x4000_0000 - 896 * MB) / PAGE_SIZE - 1024);
    // the first kernel entry maps physical 0 in 4 MiB, present and writable
    assert_eq!(pd.entries[768].data.bits, 0x183);
    // user entries are 4 MiB entries that are not present
    assert!(pd.entries[0].is_4m());
    assert!(!pd.entries[0].flag().contains(PageFlag::present()));
    let kt = KernelTables::new();
    assert_eq!(pd.lookup(&kt, VM_OFFSET + 0x1234), Some(0x1234));
    assert_eq!(pd.lookup(&kt, 0xfee0_0000), Some(0xfee0_0000));
}

#[test]
fn map_user_splits_and_reads_back() {
    let kernel = kernel_pd();
    let mut pa = pages(1024);
    let mut pd = PD::new(&kernel, &mut pa).unwrap();
    let kt = KernelTables::new();
    assert_eq!(pd.lookup(&kt, 0x80_1000), None);
    pd.map_user(0x80_1000, 0x12_3000, PageFlag::user_rdwr(), &mut pa).unwrap();
    assert_eq!(pd.lookup(&kt, 0x80_1000), Some(0x12_3000));
    assert_eq!(pd.lookup_user(0x80_1000), Some(0x12_3000));
    // the other pages of the split 4 MiB entry keep what they mapped: nothing
    assert_eq!(pd.lookup_user(0x80_2000), None);
    pd.unmap_user(0x80_1000);
    assert_eq!(pd.lookup_user(0x80_1000), None);
    // kernel addresses are left alone
    pd.map_user(VM_OFFSET, 0x1000, PageFlag::user_rdwr(), &mut pa).unwrap();
    assert_eq!(pd.lookup(&kt, VM_OFFSET), Some(0));
}

#[test]
fn map_kernel_reads_back() {
    let pd = kernel_pd();
    let mut kt = KernelTables::new();
    let v = VMALLOC_OFFSET + 5 * PAGE_SIZE;
    assert_eq!(pd.lookup(&kt, v), None);
    pd.map_kernel(&mut kt, v, 0x77_7000, PageFlag::kernel_rdwr());
    assert_eq!(pd.lookup(&kt, v), Some(0x77_7000));
    assert_eq!(pd.lookup(&kt, v + PAGE_SIZE), None);
    pd.unmap_kernel(&mut kt, v);
    assert_eq!(pd.lookup(&kt, v), None);
    let k = KMAP_OFFSET + PAGE_SIZE;
    pd.map_kernel(&mut kt, k, 0x5000, PageFlag::kernel_rdwr());
    assert_eq!(pd.lookup(&kt, k), Some(0x5000));
}

#[test]
fn address_tree_best_fit() {
    let mut tree = AddressTree::new(0x100..0x200);
    let a = tree.alloc_frames(0x10).unwrap();
    assert_eq!(a, 0x100 * PAGE_SIZE);
    let b = tree.alloc_frames(0x20).unwrap();
    assert_eq!(b, 0x110 * PAGE_SIZE);
    tree.dealloc(a, 0x10);
    // the freed run fits best a request of its own size
    let c = tree.alloc_frames(0x8).unwrap();
    assert_eq!(c, 0x100 * PAGE_SIZE);
    assert!(tree.alloc_frames(0x1000).is_none());
    tree.dealloc(c, 0x8);
    tree.dealloc(b, 0x20);
    // all merged again: the whole area can be had
    assert_eq!(tree.alloc_frames(0x100), Some(0x100 * PAGE_SIZE));
}

#[test]
fn vmalloc_page_runs() {
    let p = Page::new(10, 5);
    assert_eq!(p.end_pfn(), 15);
    assert_eq!(Page::from_pfn(3), Page { pfn: 3, count: 0 });
    assert_eq!(Page::from_count(4), Page { pfn: 0, count: 4 });
}

fn vmalloc_area() -> std::ops::Range<usize> {
    (VMALLOC_OFFSET / PAGE_SIZE)..(VMALLOC_OFFSET / PAGE_SIZE + 1024)
}

#[test]
fn vmalloc_basic() {
    let pd = kernel_pd();
    let mut kt = KernelTables::new();
    let mut pa = pages(1024);
    let mut va = VirtualAllocator::init(vmalloc_area());

    let size = 2 * PAGE_SIZE;
    let ptr = va.allocate(size, &mut pa, &pd, &mut kt).unwrap();
    assert_eq!(ptr, VMALLOC_OFFSET);
    for i in 0..VirtualAllocator::layout_to_pages(size) {
        assert!(pd.lookup(&kt, ptr + i * PAGE_SIZE).is_some());
    }
    va.deallocate(ptr, size, &mut pa, &pd, &mut kt);
    for i in 0..VirtualAllocator::layout_to_pages(size) {
        assert_eq!(pd.lookup(&kt, ptr + i * PAGE_SIZE), None);
    }
    // the frames and the physical pages are back: the same range comes again
    let again = va.allocate(size, &mut pa, &pd, &mut kt).unwrap();
    assert_eq!(again, ptr);
}

#[test]
fn vmalloc_alloc_free() {
    let pd = kernel_pd();
    let mut kt = KernelTables::new();
    let mut pa = pages(4096);
    let mut va = VirtualAllocator::init(vmalloc_area());

    let mut list = Vec::new();
    let mut seed: u32 = 42;
    loop {
        seed = seed.wrapping_mul(1103515245).wrapping_add(12345);
        let size = ((seed >> 16) as usize % 31 + 1) * 16 * PAGE_SIZE;
        match va.allocate(size, &mut pa, &pd, &mut kt) {
            Ok(ptr) => list.push((ptr, size)),
            Err(_) => break,
        }
    }
    assert!(!list.is_empty());
    for w in 0..list.len() {
        for v in (w + 1)..list.len() {
            let (a, sa) = list[w];
            let (b, sb) = list[v];
            let ea = a + VirtualAllocator::layout_to_pages(sa) * PAGE_SIZE;
            let eb = b + VirtualAllocator::layout_to_pages(sb) * PAGE_SIZE;
            assert!(ea <= b || eb <= a, "ranges overlap");
        }
    }
    while let Some((ptr, size)) = list.pop() {
        va.deallocate(ptr, size, &mut pa, &pd, &mut kt);
        assert_eq!(pd.lookup(&kt, ptr), None);
    }
}

#[test]
fn vmalloc_out_of_address() {
    let pd = kernel_pd();
    let mut kt = KernelTables::new();
    let mut pa = pages(4096);
    let mut va = VirtualAllocator::init(vmalloc_area());
    assert!(va.allocate(2048 * PAGE_SIZE, &mut pa, &pd, &mut kt).is_err());
}

#[test]
fn kernel_map_entries() {
    let mut pd = PD::uninit();
    VMemory::init(&mut pd, 0x4000_0000, 0x40_0000);
    init_fixed_map(&mut pd, 0x3_8000);
    // physical 0 at VM_OFFSET, present, global and writable
    assert_eq!(pd.entries[768].data.bits, 0x183);
    // the frame 0x38000 (896 MiB) and on: not present
    assert_eq!(pd.entries[768 + 224].data.bits, (224 * 0x40_0000) as u32 | 0x80);
    // the top 4 MiB entries map the high I/O area onto itself
    assert_eq!(pd.entries[1019].data.bits, 0xfec0_0183);
    // the low entries wrap round to the top of physical memory
    assert_eq!(pd.entries[0].data.bits, 0x4000_0080);
    init_arbitrary_map(&mut pd, 0x10_0000, 0x20_0000);
    assert_eq!(pd.entries[992].data.bits, 0x10_0103);
    assert_eq!(pd.entries[1017].data.bits, 0x10_0000 + 25 * 0x1000 + 0x103);
    assert_eq!(pd.entries[1018].data.bits, 0x20_0103);
    let kt = KernelTables::new();
    assert_eq!(pd.lookup(&kt, VMALLOC_OFFSET), None);
    assert_eq!(pd.lookup(&kt, 0xfee0_0000), Some(0xfee0_0000));
}
