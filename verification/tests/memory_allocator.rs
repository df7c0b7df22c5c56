use lib::constant::MAX_RANK;
use lib::memory_allocator::{kfree, kmalloc, level_of, MemoryAllocator, MemoryAllocatorStat, GFP, LEVEL_RNG};
use lib::no_alloc_list::{NAList, Node};
use lib::oom::oom_handler;
use lib::page_allocator::PageAllocator;
use lib::vmemory::VMemory;

const PAGE_SHIFT: usize = 12;

fn pages() -> PageAllocator {
    let vm = VMemory { normal_pfn: 0..4096, vmalloc_pfn: 0..0, high_pfn: 0..0 };
    PageAllocator::init(&vm, 4096)
}

fn no_cache() -> Vec<usize> {
    vec![0; LEVEL_RNG]
}

#[test]
fn memory_allocator_new() {
    let normal = MemoryAllocator::new();
    assert_eq!(normal.statistic(), MemoryAllocatorStat::hand_made(no_cache(), vec![0; MAX_RANK + 1]));
}

#[test]
fn memory_allocator_alloc_dealloc() {
    let mut pa = pages();
    for rank in 0..=MAX_RANK {
        let size = 1 << (rank + PAGE_SHIFT);
        let mut rank_count = vec![0; MAX_RANK + 1];
        let mut normal = MemoryAllocator::new();

        let ptr = normal.allocate(size, 4096, &mut pa);

        rank_count[rank] = 1;
        assert_eq!(normal.statistic(), MemoryAllocatorStat::hand_made(no_cache(), rank_count.clone()));

        normal.deallocate(ptr.unwrap(), size, 4096, &mut pa);

        rank_count[rank] = 0;
        assert_eq!(normal.statistic(), MemoryAllocatorStat::hand_made(no_cache(), rank_count));
    }
}

#[test]
fn memory_allocator_alloc_twice() {
    let mut pa = pages();
    let rank = 2;
    let size = 1 << (rank + PAGE_SHIFT);
    let mut rank_count = vec![0; MAX_RANK + 1];
    let mut normal = MemoryAllocator::new();

    let ptr = [normal.allocate(size, 4096, &mut pa), normal.allocate(size, 4096, &mut pa)];

    rank_count[rank] = 2;
    assert_eq!(normal.statistic(), MemoryAllocatorStat::hand_made(no_cache(), rank_count.clone()));

    normal.deallocate(ptr[0].unwrap(), size, 4096, &mut pa);
    normal.deallocate(ptr[1].unwrap(), size, 4096, &mut pa);

    rank_count[rank] = 0;
    assert_eq!(normal.statistic(), MemoryAllocatorStat::hand_made(no_cache(), rank_count));
}

#[test]
fn memory_allocator_small_requests_use_caches() {
    let mut pa = pages();
    let mut m = MemoryAllocator::new();
    let a = m.allocate(100, 8, &mut pa).unwrap();
    let b = m.allocate(100, 8, &mut pa).unwrap();
    // two slots of 128 bytes, one after the other, on one page of the 128-byte cache
    assert_eq!(b, a + 128);
    let mut cache = no_cache();
    cache[1] = 1;
    assert_eq!(m.statistic(), MemoryAllocatorStat::hand_made(cache.clone(), vec![0; MAX_RANK + 1]));
    m.deallocate(a, 100, 8, &mut pa);
    // the slot comes back first
    assert_eq!(m.allocate(128, 128, &mut pa), Ok(a));
    assert_eq!(m.statistic(), MemoryAllocatorStat::hand_made(cache, vec![0; MAX_RANK + 1]));
}

#[test]
fn request_levels() {
    assert_eq!(level_of(0, 1), 6);
    assert_eq!(level_of(1, 1), 6);
    assert_eq!(level_of(64, 1), 6);
    assert_eq!(level_of(65, 1), 7);
    assert_eq!(level_of(8, 256), 8);
    assert_eq!(level_of(2048, 8), 11);
    assert_eq!(level_of(2049, 8), 12);
    assert_eq!(level_of(1 << 22, 4096), 22);
}

#[test]
fn kmalloc_picks_allocator() {
    let mut pa = pages();
    let mut atomic = MemoryAllocator::new();
    let mut normal = MemoryAllocator::new();
    let p = kmalloc(8192, 4096, GFP::Atomic, &mut atomic, &mut normal, &mut pa).unwrap();
    let mut ranks = vec![0; MAX_RANK + 1];
    ranks[1] = 1;
    assert_eq!(atomic.statistic(), MemoryAllocatorStat::hand_made(no_cache(), ranks));
    assert_eq!(normal.statistic(), MemoryAllocatorStat::hand_made(no_cache(), vec![0; MAX_RANK + 1]));
    kfree(p, 8192, 4096, GFP::Atomic, &mut atomic, &mut normal, &mut pa);
    assert_eq!(atomic.statistic(), MemoryAllocatorStat::hand_made(no_cache(), vec![0; MAX_RANK + 1]));
}

#[test]
fn oom_handler_reclaims_below_water_mark() {
    assert!(oom_handler(0));
    assert!(oom_handler(25599));
    assert!(!oom_handler(25600));
}

#[test]
fn na_list_order() {
    let mut list: NAList<u32> = NAList::new();
    assert_eq!(list.count(), 0);
    list.insert_back(Node::construct_at(2));
    list.insert_front(Node::construct_at(1));
    list.insert_back(Node::construct_at(3));
    assert_eq!(list.count(), 3);
    assert_eq!(list.iter(), vec![&1, &2, &3]);
    assert_eq!(list.find_if(|n: &Node<u32>| *n.data() >= 2), Some(1));
    let taken = list.remove_if(|n: &Node<u32>| *n.data() == 2).unwrap();
    assert_eq!(*taken.data(), 2);
    assert_eq!(list.iter(), vec![&1, &3]);
    assert!(list.remove_if(|n: &Node<u32>| *n.data() == 7).is_none());
    let mut n = Node::construct_at(5);
    *n.data_mut() = 6;
    assert_eq!(*n.data(), 6);
}
