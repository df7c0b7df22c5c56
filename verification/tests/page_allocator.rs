use std::collections::HashSet;

use lib::buddy_allocator::BuddyAllocator;
use lib::constant::{MAX_RANK, VM_OFFSET};
use lib::page_allocator::{PageAllocator, GFP};
use lib::vmemory::VMemory;

const PAGE_SIZE: usize = 4096;
const PAGE_SHIFT: usize = 12;
const RANDOM_SEED: u32 = 42;
const ALLOC_QUEUE_SIZE: usize = 100;

struct Lcg {
    state: u32,
}

impl Lcg {
    fn new(seed: u32) -> Lcg {
        Lcg { state: seed }
    }

    fn rand(&mut self) -> u32 {
        self.state = self.state.wrapping_mul(1103515245).wrapping_add(12345);
        self.state >> 16
    }
}

#[derive(Clone, Copy)]
struct AllocInfo {
    ptr: usize,
    rank: usize,
}

struct Harness {
    pa: PageAllocator,
    state: HashSet<usize>,
}

impl Harness {
    fn new(normal_frames: usize) -> Harness {
        let vm = VMemory { normal_pfn: 0..normal_frames, vmalloc_pfn: 0..0, high_pfn: 0..0 };
        Harness { pa: PageAllocator::init(&vm, normal_frames), state: HashSet::new() }
    }

    fn take(&mut self, rank: usize, flag: GFP) -> Result<AllocInfo, ()> {
        let mem = self.pa.alloc_page(rank, flag)?;
        assert!(mem % PAGE_SIZE == 0);
        let pfn = mem >> PAGE_SHIFT;
        for i in pfn..(pfn + (1 << rank)) {
            assert!(self.state.insert(i), "allocation overlapped!");
        }
        Ok(AllocInfo { ptr: mem, rank })
    }

    fn free(&mut self, info: AllocInfo) {
        let pfn = info.ptr >> PAGE_SHIFT;
        for i in pfn..(pfn + (1 << info.rank)) {
            assert!(self.state.remove(&i), "double free detected.");
        }
        self.pa.free_page(info.ptr);
    }
}

#[test]
fn min_rank_alloc_free() {
    let mut h = Harness::new(8192);

    // allocate until out of memory
    let mut infos = Vec::new();
    while let Ok(info) = h.take(0, GFP::Normal) {
        infos.push(info);
    }
    assert_eq!(infos.len(), 8192);

    for info in infos {
        h.free(info);
    }
    // everything merged back: a whole block can be had again
    let block = h.take(MAX_RANK, GFP::Normal).unwrap();
    h.free(block);
}

#[test]
fn random_alloc_free() {
    let mut h = Harness::new(65536);
    let mut queue = Vec::new();
    let mut rng = Lcg::new(RANDOM_SEED);

    while queue.len() < ALLOC_QUEUE_SIZE {
        let rank = rng.rand() as usize % (MAX_RANK + 1);
        queue.push(h.take(rank, GFP::Normal).unwrap());
    }

    for info in queue {
        h.free(info);
    }
    assert!(h.state.is_empty());
}

#[test]
fn random_order_alloc_free() {
    let mut h = Harness::new(65536);
    let mut queue = Vec::new();
    let mut rng = Lcg::new(RANDOM_SEED);

    while queue.len() < ALLOC_QUEUE_SIZE {
        let rank = rng.rand() as usize % (MAX_RANK + 1);
        queue.push(h.take(rank, GFP::Normal).unwrap());
    }

    for _ in 0..1000 {
        let a = rng.rand() as usize % ALLOC_QUEUE_SIZE;
        let b = rng.rand() as usize % ALLOC_QUEUE_SIZE;
        queue.swap(a, b);
    }

    for info in queue {
        h.free(info);
    }
    assert!(h.state.is_empty());
}

#[test]
fn zone_high_falls_back_to_normal() {
    // without high memory a request for it is served by the linear map
    let mut h = Harness::new(1024);
    let info = h.take(0, GFP::High).unwrap();
    assert!(info.ptr >= VM_OFFSET);
    h.free(info);
}

#[test]
fn normal_zone_addresses() {
    let mut h = Harness::new(1024);
    let first = h.take(MAX_RANK, GFP::Normal).unwrap();
    assert_eq!(first.ptr, VM_OFFSET);
    assert!(h.take(0, GFP::Normal).is_err());
    h.free(first);
    let page = h.take(0, GFP::Normal).unwrap();
    assert!(page.ptr >= VM_OFFSET && page.ptr < VM_OFFSET + 1024 * PAGE_SIZE);
}

#[test]
fn buddy_split_and_merge() {
    let mut b = BuddyAllocator::construct_at(0, 1024, 1024);
    let a = b.alloc_page(0).unwrap();
    let c = b.alloc_page(0).unwrap();
    assert_ne!(a, c);
    assert_eq!(a.max(c) - a.min(c), PAGE_SIZE);
    b.free_page(a);
    b.free_page(c);
    // both halves merged back into the whole block
    let whole = b.alloc_page(MAX_RANK).unwrap();
    assert_eq!(whole, VM_OFFSET);
    assert!(b.alloc_page(0).is_err());
    b.free_page(whole);
}

#[test]
fn buddy_block_alignment() {
    let mut b = BuddyAllocator::construct_at(0, 2048, 2048);
    let small = b.alloc_page(0).unwrap();
    let big = b.alloc_page(3).unwrap();
    assert_eq!((big - VM_OFFSET) % (8 * PAGE_SIZE), 0);
    assert!(big + 8 * PAGE_SIZE <= small || small + PAGE_SIZE <= big);
    b.free_page(small);
    b.free_page(big);
}
