use lib::meta::{BitRange, MetaData};
use lib::meta_page::{phys_to_meta, MetaPage, MetaPageIter, MetaPageTable};
use lib::util::pfn_to_addr;

#[test]
fn rank() {
    let mut data = MetaData::new_unmapped();
    for i in 0..=10 {
        data.set_flag(MetaData::rank_range(), i);
        assert!(data.get_flag(MetaData::rank_range()) == i);
    }
}

#[test]
fn new() {
    let addr = pfn_to_addr(42);
    let data = MetaData::new(addr);
    let new_addr = data.mapped_addr();
    assert!(addr == new_addr);
}

#[test]
fn remap() {
    let mut data = MetaData::new_unmapped();
    assert!(data.mapped_addr() == 0);
    let addr = pfn_to_addr(42);
    data.remap(addr);
    assert!(data.mapped_addr() == addr);
}

#[test]
fn metadata_fields_are_independent() {
    let mut data = MetaData::new(0x1234_5678);
    assert_eq!(data.mapped_addr(), 0x1234_5000);
    data.set_flag(MetaData::inuse_range(), 1);
    data.set_flag(MetaData::rank_range(), 7);
    assert_eq!(data.get_flag(MetaData::inuse_range()), 1);
    assert_eq!(data.get_flag(MetaData::rank_range()), 7);
    assert_eq!(data.mapped_addr(), 0x1234_5000);
    data.remap(0x9000);
    assert_eq!(data.get_flag(MetaData::rank_range()), 7);
    assert_eq!(data.mapped_addr(), 0x9000);
    assert_eq!(BitRange::new(1, 5).mask(), 0x1e);
    assert_eq!(BitRange::make_mask(4), 0xf);
}

#[test]
fn meta_page_flags() {
    let mut p = MetaPage::construct_at(3);
    assert_eq!((p.prev(), p.next()), (3, 3));
    assert!(!p.inuse());
    p.set_rank(4);
    p.set_inuse(true);
    assert!(p.is_inuse());
    assert_eq!(p.rank(), 4);
    p.rank_up();
    assert_eq!(p.rank(), 5);
    p.rank_down();
    p.rank_down();
    assert_eq!(p.rank(), 3);
    p.remap(0x8000);
    assert_eq!(p.mapped_addr(), 0x8000);
    assert!(p.inuse());
}

#[test]
fn meta_page_lists() {
    let mut t = MetaPageTable::new(8);
    assert!(t.empty(0));
    t.push(0, 3);
    t.push(0, 5);
    assert!(!t.empty(0));
    // the list of 0 is 0 -> 3 -> 5 -> 0
    let mut it = MetaPageIter::new(0);
    assert_eq!(it.next(&t), Some(3));
    assert_eq!(it.next(&t), Some(5));
    assert_eq!(it.next(&t), None);
    assert_eq!(t.pop(0), Some(3));
    assert_eq!(t.pop(0), Some(5));
    assert_eq!(t.pop(0), None);
    assert!(t.empty(3));
}

#[test]
fn meta_page_split_merge() {
    let mut t = MetaPageTable::new(16);
    t.set_rank_at(0, 3);
    let (lo, hi) = t.split(0);
    assert_eq!((lo, hi), (0, 4));
    assert_eq!(t.pages[0].rank(), 2);
    assert_eq!(t.pages[4].rank(), 2);
    assert_eq!(t.merge(4, 0), 0);
    assert_eq!(t.pages[0].rank(), 3);
    assert_eq!(phys_to_meta(&t, 0x5123), 5);
    assert_eq!(t.ptr_to_metapage(0xc000_3000), 3);
}

#[test]
fn set_rank_keeps_four_bits() {
    let mut p = MetaPage::construct_at(3);
    p.set_inuse(true);
    p.set_rank(17);
    assert_eq!(p.rank(), 1);
    assert!(p.inuse());
    assert!(p.empty(3));
    assert!(!p.empty(4));
}

#[test]
fn pop_relinks_the_rest() {
    let mut t = MetaPageTable::new(4);
    t.push(0, 1);
    t.push(0, 2);
    t.push(0, 3);
    // list: 0 -> 1 -> 2 -> 3 -> 0
    assert_eq!(t.pop(0), Some(1));
    assert!(t.empty(1));
    assert_eq!(t.pages[0].next, 2);
    assert_eq!(t.pages[2].prev, 0);
    assert_eq!(t.pages[3].next, 0);
    assert_eq!(t.pop(0), Some(2));
    assert_eq!(t.pop(0), Some(3));
    assert_eq!(t.pop(0), None);
    assert!(t.empty(0));
}

#[test]
fn metapage_index_roundtrip() {
    let t = MetaPageTable::new(64);
    for i in 0..64usize {
        assert_eq!(t.metapage_to_index(t.index_to_metapage(i)), i);
        assert_eq!(t.ptr_to_metapage(lib::util::phys_to_virt(pfn_to_addr(i))), i);
    }
}
