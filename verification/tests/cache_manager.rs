use lib::cache_manager::CacheManager;
use lib::page_allocator::PageAllocator;
use lib::size_cache::SizeCache;
use lib::vmemory::VMemory;

fn pages() -> PageAllocator {
    let vm = VMemory { normal_pfn: 0..1024, vmalloc_pfn: 0..0, high_pfn: 0..0 };
    PageAllocator::init(&vm, 1024)
}

#[test]
fn test_cache_alloc_dealloc() {
    let mut pa = pages();
    let mut cm: CacheManager<2048, 64> = CacheManager::new();
    let cache = cm.new_allocator(&mut pa).unwrap();
    // one page carved for each space, the rest of it free
    assert_eq!(cm.cache_page_count(), 1);
    assert_eq!(cm.node_page_count(), 1);
    assert_eq!(cm.cache_free_count(), 1);
    assert_eq!(cm.node_free_count(), 1);
    assert_eq!(cm.registered(), vec![cache]);

    // the cache that the room at `cache` holds, which never took a page
    let mut obj: SizeCache<2048> = SizeCache::new();
    assert!(cm.drop_allocator(cache, &mut obj).is_empty());
    assert!(cm.registered().is_empty());
    // the slots went back and joined the rest of their pages
    assert_eq!(cm.cache_free_count(), 1);
    assert_eq!(cm.node_free_count(), 1);
    let (a, b) = cm.cache_shrink();
    assert_eq!(a.len(), 1);
    assert_eq!(b.len(), 1);
    assert_eq!(cm.cache_free_count(), 0);
    assert_eq!(cm.node_free_count(), 0);
}

#[test]
fn test_register_unregister() {
    let mut pa = pages();
    let mut cm: CacheManager<2048, 64> = CacheManager::new();
    cm.register(0x1234_0000, &mut pa).unwrap();
    cm.register(0x5678_0000, &mut pa).unwrap();
    assert_eq!(cm.registered(), vec![0x5678_0000, 0x1234_0000]);
    assert_eq!(cm.node_page_count(), 1);

    cm.unregister(0x1234_0000);
    assert_eq!(cm.registered(), vec![0x5678_0000]);
    // a cache that is not on the list changes nothing
    cm.unregister(0x9999_0000);
    assert_eq!(cm.registered(), vec![0x5678_0000]);
    cm.unregister(0x5678_0000);
    assert!(cm.registered().is_empty());
    assert_eq!(cm.node_free_count(), 1);
}

#[test]
fn test_register_out_of_memory() {
    let vm = VMemory { normal_pfn: 0..0, vmalloc_pfn: 0..0, high_pfn: 0..0 };
    let mut pa = PageAllocator::init(&vm, 1024);
    let mut cm: CacheManager<2048, 64> = CacheManager::new();
    assert!(cm.register(0x1234_0000, &mut pa).is_err());
    assert!(cm.new_allocator(&mut pa).is_err());
    assert!(cm.registered().is_empty());
}
