use lib::util::{
    addr_to_pfn, align_of_rank, align_with_hw_cache, bit_scan_forward, bit_scan_reverse, get_bit, is_aligned,
    next_align, pfn_to_addr, phys_to_virt, prev_align, rank_to_pages, rank_to_size, size_of_rank, size_to_rank,
    virt_to_phys,
};

const PAGE_SIZE: usize = 4096;

#[test]
fn test_bsfr() {
    assert_eq!(bit_scan_forward(0x01), 0);
    assert_eq!(bit_scan_forward(0x100), 8);
    assert_eq!(bit_scan_forward(0x0101), 0);

    assert_eq!(bit_scan_reverse(0x01), 0);
    assert_eq!(bit_scan_reverse(0x100), 8);
    assert_eq!(bit_scan_reverse(0x0101), 8);
}

#[test]
fn size_to_rank_basic() {
    assert_eq!(size_to_rank(0), 0);
    assert_eq!(size_to_rank(1), 0);
    assert_eq!(size_to_rank(PAGE_SIZE), 0);
    assert_eq!(size_to_rank(PAGE_SIZE + 1), 1);
    assert_eq!(size_to_rank(PAGE_SIZE * 2), 1);
    assert_eq!(size_to_rank(PAGE_SIZE * 2 + 1), 2);
    assert_eq!(size_to_rank(PAGE_SIZE * 3), 2);
    assert_eq!(size_to_rank(PAGE_SIZE * 4), 2);
    assert_eq!(size_to_rank(PAGE_SIZE * 4 + 1), 3);
    assert_eq!(size_to_rank(PAGE_SIZE * 5), 3);
}

#[test]
fn pfn_and_address_conversions() {
    assert_eq!(addr_to_pfn(0x1234_5678), 0x1_2345);
    assert_eq!(pfn_to_addr(0x1_2345), 0x1234_5000);
    assert_eq!(rank_to_pages(0), 1);
    assert_eq!(rank_to_pages(10), 1024);
    assert_eq!(rank_to_size(3), 8 * PAGE_SIZE);
    assert_eq!(align_of_rank(2), 0x4000);
    assert_eq!(size_of_rank(10), 0x40_0000);
}

#[test]
fn linear_map_roundtrip() {
    assert_eq!(phys_to_virt(0x1000), 0xc000_1000);
    assert_eq!(virt_to_phys(0xc000_1000), 0x1000);
    assert_eq!(virt_to_phys(phys_to_virt(0x0123_4000)), 0x0123_4000);
}

#[test]
fn alignment_helpers() {
    assert_eq!(next_align(0x1001, PAGE_SIZE), 0x2000);
    assert_eq!(next_align(0x2000, PAGE_SIZE), 0x2000);
    assert_eq!(prev_align(0x2000, PAGE_SIZE), 0x1000);
    assert_eq!(prev_align(0x2001, PAGE_SIZE), 0x2000);
    assert!(is_aligned(0x3000, PAGE_SIZE));
    assert!(!is_aligned(0x3004, PAGE_SIZE));
    assert!(get_bit(0b100, 2));
    assert!(!get_bit(0b100, 1));
}

#[test]
fn hw_cache_size_classes() {
    assert_eq!(align_with_hw_cache(1), 16);
    assert_eq!(align_with_hw_cache(16), 16);
    assert_eq!(align_with_hw_cache(17), 32);
    assert_eq!(align_with_hw_cache(33), 64);
    assert_eq!(align_with_hw_cache(65), 128);
}

#[test]
fn virt_phys_roundtrip_and_rank_sizes() {
    for p in [0usize, 0x1000, 0x3fff_f000, 0x4000_0000, usize::MAX] {
        assert_eq!(virt_to_phys(phys_to_virt(p)), p);
    }
    for rank in 0..10 {
        assert_eq!(size_of_rank(rank), rank_to_pages(rank) * PAGE_SIZE);
        assert_eq!(align_of_rank(rank), rank_to_size(rank));
    }
    for p in [0usize, 1, 0xfff, 0x1000, 0x1001] {
        let a = next_align(p, PAGE_SIZE);
        assert!(is_aligned(a, PAGE_SIZE));
        assert_eq!(is_aligned(p, PAGE_SIZE), p & (PAGE_SIZE - 1) == 0);
    }
}

#[test]
fn next_align_at_the_top() {
    let p = usize::MAX - (PAGE_SIZE - 1);
    assert_eq!(next_align(p, PAGE_SIZE), p);
    assert!(is_aligned(next_align(p, PAGE_SIZE), PAGE_SIZE));
    assert_eq!(next_align(p - 1, PAGE_SIZE), p);
}
