use lib::cache::{align_with_hw_cache, FreeList, FreeNode};
use lib::page_allocator::PageAllocator;
use lib::size_cache::{ObjCache, SizeCache};
use lib::vmemory::VMemory;

const PAGE_SIZE: usize = 4096;

fn pages() -> PageAllocator {
    let vm = VMemory { normal_pfn: 0..1024, vmalloc_pfn: 0..0, high_pfn: 0..0 };
    PageAllocator::init(&vm, 1024)
}

fn node(addr: usize, bytes: usize) -> FreeNode {
    FreeNode::construct_at(addr, bytes)
}

#[test]
fn test_construct_at() {
    let n = node(0x1000, PAGE_SIZE);
    assert_eq!(n.as_ptr(), 0x1000);
    assert_eq!(n.addr(), 0x1000);
    assert_eq!(n.bytes(), PAGE_SIZE);
}

#[test]
fn test_alloc_bytes() {
    let n = node(0x1000, PAGE_SIZE);
    assert!(n.alloc_bytes(10000).is_none());
    let next = n.alloc_bytes(10).unwrap();
    assert_eq!(next.addr(), 0x1000 + 10);
    assert_eq!(next.bytes(), PAGE_SIZE - 10);
}

#[test]
fn test_try_merge() {
    let mut list = FreeList::new();
    list.insert(node(0x1000 + 30, 30));
    list.insert(node(0x1000, 30));
    assert_eq!(list.count(), 1);
    assert_eq!(list.head().unwrap().bytes(), 60);

    let mut list = FreeList::new();
    list.insert(node(0x1000, 30));
    list.insert(node(0x1000 + 30, 30));
    assert_eq!(list.count(), 1);
    assert_eq!(list.head().unwrap().bytes(), 60);
    assert_eq!(list.head().unwrap().addr(), 0x1000);
}

fn disjoint_init_list() -> FreeList {
    let mut list = FreeList::new();
    list.insert(node(0x1000, 31));
    list.insert(node(0x1000 + 100, 32));
    list.insert(node(0x1000 + 200, 33));
    list
}

#[test]
fn test_disjoint() {
    for (taken, left, right) in [(0usize, 100usize, 200usize), (100, 0, 200), (200, 0, 100)] {
        let mut list = disjoint_init_list();
        let n = list.remove_if(|n: &FreeNode| n.addr() == 0x1000 + taken).unwrap();
        assert_eq!(n.addr(), 0x1000 + taken);
        let rest = list.iter();
        assert_eq!(rest.len(), 2);
        assert_eq!(rest[0].addr(), 0x1000 + left);
        assert_eq!(rest[1].addr(), 0x1000 + right);
    }
}

#[test]
fn test_contains() {
    let n = node(0x1000, 16);
    assert!(n.contains(0x1000));
    assert!(n.contains(0x100f));
    assert!(!n.contains(0x1010));
    assert!(!n.contains(0xfff));
}

#[test]
fn test_shrink_node() {
    // not aligned, with a tail
    let mut n = node(0x1000 + 100, 3 * PAGE_SIZE);
    let (ptr, count, extra) = n.shrink();
    assert_eq!(n.bytes(), PAGE_SIZE - 100);
    assert_eq!(ptr, 0x2000);
    assert_eq!(count, 2);
    let e = extra.unwrap();
    assert_eq!(e.addr(), 0x4000);
    assert_eq!(e.bytes(), 100);
    // aligned, no tail
    let mut n = node(0x1000, PAGE_SIZE);
    let (ptr, count, extra) = n.shrink();
    assert_eq!((n.bytes(), ptr, count), (0, 0x1000, 1));
    assert!(extra.is_none());
}

#[test]
fn test_new() {
    let mut list = FreeList::new();
    list.insert(node(0x1000, PAGE_SIZE));
    assert_eq!(list.head().unwrap().addr(), 0x1000);
}

#[test]
fn test_last() {
    let mut list = FreeList::new();
    list.insert(node(0x1000, 32));
    list.insert(node(0x1000 + 50, 22));
    assert_eq!(list.last().unwrap().addr(), 0x1000 + 50);
}

#[test]
fn test_insert_merged() {
    let mut list = FreeList::new();
    list.insert(node(0x1000, 30));
    list.insert(node(0x1000 + 30, 20));
    assert_eq!(list.head().unwrap().bytes(), 50);
}

fn index_of(list: &FreeList, addr: usize) -> usize {
    list.iter().iter().position(|n| n.addr() == addr).unwrap()
}

#[test]
fn test_insert() {
    let mut list = FreeList::new();
    list.insert(node(0x1000 + 100, 30));
    list.insert(node(0x1000 + 500, 20));
    list.insert(node(0x1000 + 1000, 100));

    list.insert(node(0x1000, 31));
    assert_eq!(index_of(&list, 0x1000), 0);

    list.insert(node(0x1000 + 50, 25));
    assert_eq!(index_of(&list, 0x1000 + 50), 1);
}

fn remove_init_list() -> FreeList {
    let mut list = FreeList::new();
    list.insert(node(0x1000, 30));
    list.insert(node(0x1000 + 50, 20));
    list.insert(node(0x1000 + 100, 100));
    list
}

#[test]
fn test_remove() {
    let mut list = remove_init_list();
    list.remove_if(|n: &FreeNode| n.addr() == 0x1000 + 100);
    assert_eq!(list.count(), 2);
    assert_eq!(list.head().unwrap().addr(), 0x1000);

    let mut list = remove_init_list();
    list.remove_if(|n: &FreeNode| n.addr() == 0x1000 + 50);
    assert_eq!(list.count(), 2);
    assert_eq!(list.head().unwrap().addr(), 0x1000);

    let mut list = remove_init_list();
    list.remove_if(|n: &FreeNode| n.addr() == 0x1000);
    assert_eq!(list.count(), 2);
    assert_eq!(list.head().unwrap().addr(), 0x1000 + 50);
    list.remove_if(|n: &FreeNode| n.addr() == 0x1000 + 50);
    list.remove_if(|n: &FreeNode| n.addr() == 0x1000 + 100);
    assert!(list.head().is_none());
}

#[test]
fn test_remove_if() {
    let mut list = remove_init_list();
    list.remove_if(|n: &FreeNode| n.bytes() > 25);
    assert_eq!(list.count(), 2);
    assert_eq!(list.head().unwrap().addr(), 0x1000 + 50);
    assert_eq!(list.last().unwrap().addr(), 0x1000 + 100);
}

#[test]
fn test_find_if_and_double_free() {
    let list = remove_init_list();
    assert_eq!(list.find_if(|n: &FreeNode| n.bytes() < 25).unwrap().addr(), 0x1000 + 50);
    assert!(list.find_if(|n: &FreeNode| n.bytes() > 1000).is_none());
    assert!(list.check_double_free(0x1000 + 10));
    assert!(!list.check_double_free(0x1000 + 40));
}

#[test]
fn test_align_with_hw_cache_lines() {
    assert_eq!(align_with_hw_cache(0), 0);
    assert_eq!(align_with_hw_cache(1), 64);
    assert_eq!(align_with_hw_cache(64), 64);
    assert_eq!(align_with_hw_cache(65), 128);
    assert_eq!(align_with_hw_cache(4000), 4032);
}

#[test]
fn size_cache_alloc() {
    let mut pa = pages();
    let mut cache = SizeCache::<16>::new();
    for i in 1..10 {
        let ptr = cache.allocate(&mut pa).unwrap();
        let head = cache.free_list().head().unwrap();
        assert_eq!(cache.page_count(), 1);
        assert_eq!(cache.free_list().count(), 1);
        assert_eq!(head.as_ptr(), ptr + 64);
        assert_eq!(head.bytes(), PAGE_SIZE - 64 * i);
    }
}

#[test]
fn size_cache_dealloc() {
    let mut pa = pages();
    let mut cache = SizeCache::<32>::new();
    let ptr1 = cache.allocate(&mut pa).unwrap();
    let ptr2 = cache.allocate(&mut pa).unwrap();
    let ptr3 = cache.allocate(&mut pa).unwrap();
    let ptr4 = cache.allocate(&mut pa).unwrap();
    let ptr5 = cache.allocate(&mut pa).unwrap();

    for (ptr, count) in [(ptr2, 2), (ptr4, 3), (ptr1, 3), (ptr3, 2), (ptr5, 1)] {
        cache.dealloc(ptr);
        assert_eq!(cache.free_list().count(), count);
    }
}

#[test]
fn size_cache_shrink() {
    // #1 page aligned, no extra space
    let mut pa = pages();
    let mut cache = SizeCache::<1024>::new();
    let ptr = cache.allocate(&mut pa).unwrap();
    cache.dealloc(ptr);
    cache.cache_shrink();
    assert_eq!(cache.free_list().count(), 0);

    // #2 page aligned, extra space
    let mut pa = pages();
    let mut cache = SizeCache::<2048>::new();
    let ptr1 = cache.allocate(&mut pa).unwrap();
    let ptr2 = cache.allocate(&mut pa).unwrap();
    let ptr3 = cache.allocate(&mut pa).unwrap();
    cache.allocate(&mut pa).unwrap();
    cache.dealloc(ptr1);
    cache.dealloc(ptr2);
    cache.dealloc(ptr3);
    cache.cache_shrink();
    assert_eq!(cache.free_list().count(), 1);

    // #3 not aligned, no extra space
    let mut pa = pages();
    let mut cache = SizeCache::<2048>::new();
    cache.allocate(&mut pa).unwrap();
    let ptr1 = cache.allocate(&mut pa).unwrap();
    let ptr2 = cache.allocate(&mut pa).unwrap();
    cache.dealloc(ptr1);
    cache.dealloc(ptr2);
    cache.cache_shrink();
    assert_eq!(cache.free_list().count(), 1);

    // #4 not aligned, extra space
    let mut pa = pages();
    let mut cache = SizeCache::<2048>::new();
    cache.allocate(&mut pa).unwrap();
    let ptr1 = cache.allocate(&mut pa).unwrap();
    let ptr2 = cache.allocate(&mut pa).unwrap();
    let ptr3 = cache.allocate(&mut pa).unwrap();
    let ptr4 = cache.allocate(&mut pa).unwrap();
    cache.allocate(&mut pa).unwrap();
    cache.dealloc(ptr1);
    cache.dealloc(ptr2);
    cache.dealloc(ptr3);
    cache.dealloc(ptr4);
    cache.cache_shrink();
    assert_eq!(cache.free_list().count(), 2);
}

#[test]
fn obj_cache_alloc() {
    let mut pa = pages();
    let obj_size = core::mem::size_of::<u32>();
    let count = 22;
    let mut cache = ObjCache::<u32>::new();

    for i in 1..10 {
        let ptr = cache.allocate(count, &mut pa).unwrap();
        let off = align_with_hw_cache(count * obj_size);
        assert_eq!(cache.page_count(), 1);
        assert_eq!(cache.free_list().count(), 1);
        let head = cache.free_list().head().unwrap();
        assert_eq!(head.as_ptr(), ptr + off);
        assert_eq!(head.bytes(), PAGE_SIZE - off * i);
    }

    cache.allocate(1000, &mut pa).unwrap();
    assert_eq!(cache.page_count(), 2);
    assert_eq!(cache.free_list().count(), 2);

    cache.allocate(2000, &mut pa).unwrap();
    assert_eq!(cache.page_count(), 4);
    assert_eq!(cache.free_list().count(), 3);
}

#[test]
fn obj_cache_dealloc() {
    let mut pa = pages();
    let mut cache = ObjCache::<u32>::new();
    let count = 200;
    let mut merged = 0;

    let ptr1 = cache.allocate(count, &mut pa).unwrap();
    let ptr2 = cache.allocate(count, &mut pa).unwrap();
    let ptr3 = cache.allocate(count, &mut pa).unwrap();
    let ptr4 = cache.allocate(count, &mut pa).unwrap();
    let ptr5 = cache.allocate(count, &mut pa).unwrap();
    let ptr6 = cache.allocate(count, &mut pa).unwrap();

    assert_eq!(cache.page_count(), 2);
    assert_eq!(cache.free_list().count(), 2);

    if ptr1 + PAGE_SIZE == ptr5 {
        merged = 1;
    }

    for (ptr, n) in [(ptr1, 3), (ptr3, 4), (ptr5, 5 - merged), (ptr6, 4 - merged), (ptr4, 3 - merged), (ptr2, 2 - merged)] {
        cache.dealloc(ptr, count);
        assert_eq!(cache.free_list().count(), n);
    }
}

#[test]
fn obj_cache_shrink() {
    // #1 page aligned, no extra space
    let mut pa = pages();
    let mut cache = ObjCache::<u32>::new();
    let ptr = cache.allocate(1024, &mut pa).unwrap();
    cache.dealloc(ptr, 1024);
    let released = cache.cache_shrink();
    assert_eq!(cache.free_list().count(), 0);
    assert_eq!(released, vec![(ptr, 1)]);

    // #2 page aligned, extra space
    let mut pa = pages();
    let mut cache = ObjCache::<u32>::new();
    let ptr = cache.allocate(1600, &mut pa).unwrap();
    cache.allocate(3, &mut pa).unwrap();
    cache.dealloc(ptr, 1600);
    cache.cache_shrink();
    assert_eq!(cache.free_list().count(), 2);

    // #3 not aligned, no extra space
    let mut pa = pages();
    let mut cache = ObjCache::<u32>::new();
    let ptr = cache.allocate(1600, &mut pa).unwrap();
    cache.dealloc(ptr, 1600);
    cache.allocate(3, &mut pa).unwrap();
    cache.cache_shrink();
    assert_eq!(cache.free_list().count(), 1);

    // #4 not aligned, extra space
    let mut pa = pages();
    let mut cache = ObjCache::<u32>::new();
    let ptr = cache.allocate(3000, &mut pa).unwrap();
    cache.allocate(3, &mut pa).unwrap();
    cache.dealloc(ptr, 3000);
    cache.allocate(3, &mut pa).unwrap();
    cache.cache_shrink();
    assert_eq!(cache.free_list().count(), 3);
}

#[test]
fn test_shrink_short_node() {
    // a node smaller than a page: only the part before the page boundary stays
    let mut n = node(0x1800, 0x800);
    let (ptr, count, rest) = n.shrink();
    assert_eq!(n.bytes(), 0x800);
    assert_eq!(ptr, 0x2000);
    assert_eq!(count, 0);
    assert!(rest.is_none());
}
