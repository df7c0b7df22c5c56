use lib::constant::LAST_PFN;
use lib::vma::{Area, AreaFlag, UserAddressSpace, VALID_USER_END, VALID_USER_START};

const PAGE_SIZE: usize = 4096;

fn readable() -> AreaFlag {
    AreaFlag::readable()
}

#[test]
fn alloc_query() {
    let mut us = UserAddressSpace::new();

    let start = us.allocate_area(10, readable()).unwrap();

    assert!(us.query_flag(start, readable()));
    assert!(us.query_flag((start + PAGE_SIZE * 10) - 1, readable()));
    assert!(!us.query_flag(start + PAGE_SIZE * 10, readable()));
}

#[test]
fn alloc_dealloc() {
    let mut us = UserAddressSpace::new();

    let start = us.allocate_area(10, readable()).unwrap();
    assert!(us.query_flag(start, readable()));

    let area = us.deallocate_area(start).unwrap();
    assert!(area.start == start && area.end == area.start + PAGE_SIZE * 10 && area.flags == readable());
    assert!(!us.query_flag(start, readable()));
}

#[test]
fn fixed_alloc() {
    let mut us = UserAddressSpace::new();

    // the null area cannot be allocated.
    assert!(matches!(us.allocate_fixed_area(0, 1, readable()), Err(_)));

    // the kernel area cannot be allocated.
    assert!(matches!(us.allocate_fixed_area(VALID_USER_END, 1, readable()), Err(_)));

    let begin = us.allocate_fixed_area(VALID_USER_START, 1, readable()).unwrap();
    assert!(begin == VALID_USER_START);
    assert!(us.query_flag(begin, readable()));
    assert!(us.query_flag(begin + PAGE_SIZE - 1, readable()));
    assert!(!us.query_flag(begin + PAGE_SIZE, readable()));
}

#[test]
fn full_area() {
    let mut us = UserAddressSpace::new();

    let mut count = LAST_PFN;
    let start = loop {
        if let Ok(s) = us.allocate_area(count, readable()) {
            break s;
        }
        count -= 1;
    };
    let end = start + count * PAGE_SIZE;

    assert!(VALID_USER_START <= start && end <= VALID_USER_END);
    assert_eq!(count, (VALID_USER_END - VALID_USER_START) / PAGE_SIZE);

    assert!(us.query_flag(start, readable()));
    us.deallocate_area(start);
    assert!(!us.query_flag(start, readable()));

    let area1 = us.allocate_area(count - 1, readable()).unwrap();
    let area2 = us.allocate_area(1, readable()).unwrap();
    assert!(us.query_flag(area1, readable()));
    assert!(us.query_flag(area2, readable()));
}

#[test]
fn overlap() {
    let mut us = UserAddressSpace::new();

    us.allocate_fixed_area(0xb000_2000, 2, readable()).unwrap();
    us.allocate_fixed_area(0xb000_6000, 2, readable()).unwrap();

    let temp = us.allocate_fixed_area(0xb000_0000, 2, readable()).unwrap();
    us.deallocate_area(temp);

    us.allocate_fixed_area(0xb000_1000, 2, readable()).unwrap_err();
    us.allocate_fixed_area(0xb000_2000, 2, readable()).unwrap_err();
    us.allocate_fixed_area(0xb000_3000, 2, readable()).unwrap_err();

    let temp = us.allocate_fixed_area(0xb000_4000, 2, readable()).unwrap();
    us.deallocate_area(temp);

    us.allocate_fixed_area(0xb000_5000, 2, readable()).unwrap_err();
    us.allocate_fixed_area(0xb000_6000, 2, readable()).unwrap_err();
    us.allocate_fixed_area(0xb000_7000, 2, readable()).unwrap_err();

    let temp = us.allocate_fixed_area(0xb000_8000, 2, readable()).unwrap();
    us.deallocate_area(temp);
}

#[test]
fn first_fit_takes_lowest_gap() {
    let mut us = UserAddressSpace::new();
    let a = us.allocate_area(1, readable()).unwrap();
    assert_eq!(a, VALID_USER_START);
    let b = us.allocate_area(2, readable()).unwrap();
    assert_eq!(b, VALID_USER_START + PAGE_SIZE);
    us.deallocate_area(a).unwrap();
    let c = us.allocate_area(1, readable()).unwrap();
    assert_eq!(c, VALID_USER_START);
    assert_eq!(us.get_areas().len(), 2);
}

#[test]
fn area_basics() {
    let rw = AreaFlag::readable().union(AreaFlag::writable());
    let a = Area::new(0x1000, 0x3000, rw);
    assert!(a.contains(0x1000));
    assert!(a.contains(0x2fff));
    assert!(!a.contains(0x3000));
    assert!(a.flags.contains(AreaFlag::writable()));
    assert!(!AreaFlag::readable().contains(AreaFlag::writable()));
    let b = Area::new(0x2000, 0x4000, rw);
    let c = Area::new(0x3000, 0x4000, rw);
    assert!(a.is_overlap(&b));
    assert!(b.is_overlap(&a));
    // areas are half-open: one that merely touches does not overlap
    assert!(!a.is_overlap(&c));
    assert!(!c.is_overlap(&a));
    let d = Area::new(0x3000, 0x4000, rw);
    let e = Area::new(0x1000, 0x2000, rw);
    assert!(!d.is_overlap(&e));
    assert!(!e.is_overlap(&d));
    let mut pages = a.iter_pages();
    assert_eq!(pages.next(), Some(0x1000));
    assert_eq!(pages.next(), Some(0x2000));
    assert_eq!(pages.next(), None);
}
