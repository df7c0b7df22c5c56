use lib::packed::{PageDirEntry, PageDirEntryPacked, PageDirectory, PageTabEntry, PageTabEntryPacked, PageTable};
use lib::paging::{PageFlag, PDE, PT, PTE};

#[test]
fn page_flag_set_operations() {
    let rw = PageFlag::present().union(PageFlag::write());
    assert_eq!(rw.bits(), 3);
    assert!(rw.contains(PageFlag::present()));
    assert!(!rw.contains(PageFlag::user()));
    let mut f = rw;
    f.insert(PageFlag::user());
    assert_eq!(f.bits(), 7);
    assert_eq!(PageFlag::user_rdwr().bits(), 7);
    f.remove(PageFlag::present());
    assert_eq!(f.bits(), 6);
    assert_eq!(PageFlag::from_bits_truncate(0xffff_ffff).bits(), 0x1ff);
    assert_eq!(PageFlag::from_bits_retain(0x1234_5003).bits(), 0x1234_5003);
    assert_eq!(PageFlag::empty().bits(), 0);
}

#[test]
fn directory_entries() {
    let big = PDE::new_4m(0x0080_1234, PageFlag::present().union(PageFlag::write()));
    assert!(big.is_4m());
    assert_eq!(big.data.bits, 0x0080_0083);
    assert_eq!(big.addr(), 0x0080_0000);
    let table = PDE::new(0x0012_3456, PageFlag::present());
    assert!(!table.is_4m());
    assert_eq!(table.addr(), 0x0012_3000);
    assert_eq!(table.flag().bits(), 1);
}

#[test]
fn table_entries() {
    let mut e = PTE::new(0x0045_6789, PageFlag::user_rdwr());
    assert_eq!(e.addr(), 0x0045_6000);
    assert_eq!(e.flag().bits(), 7);
    // the new flags replace every bit of the entry, its address too
    e.set_flag(PageFlag::present());
    assert_eq!(e.addr(), 0);
    assert_eq!(e.flag().bits(), 1);
    assert_eq!(PTE::empty().data.bits, 0);
}

#[test]
fn table_from_4m_entry() {
    let big = PDE::new_4m(0x0040_0000, PageFlag::present().union(PageFlag::write()));
    let t = PT::new_from_4m(big);
    assert_eq!(t.entries.len(), 1024);
    assert_eq!(t.entries[0].addr(), 0x0040_0000);
    assert_eq!(t.entries[1023].addr(), 0x0040_0000 + 1023 * 4096);
    // the flags come over as they are, the size bit included
    assert_eq!(t.entries[5].flag().bits(), 0x83);
    assert!(PT::new().entries.iter().all(|e| e.data.bits == 0));
}

#[test]
fn packed_directory_entry_unpack() {
    let e = PageDirEntryPacked { data: 0x0012_3000 | 0x80 | 0x20 | 0x3 }.unpack();
    assert_eq!(e.addr, 0x123);
    assert!(e.page_size && e.accessed && e.rw && e.present);
    assert!(!e.pcd && !e.pwt && !e.privilege);
    assert_eq!(PageDirEntryPacked::new().data, 0);
    assert!(PageDirectory::new().entry.iter().all(|e| e.data == 0));
}

#[test]
fn packed_table_entry_unpack() {
    let e = PageTabEntryPacked { data: 0x0000_5000 | 0x100 | 0x40 | 0x4 | 0x1 }.unpack();
    assert_eq!(e.addr, 5);
    assert!(e.global && e.dirty && e.privilege && e.present);
    assert!(!e.pat && !e.accessed && !e.pcd && !e.pwt && !e.rw);
    assert!(PageTable::new().entry.iter().all(|e| e.data == 0));
}

#[test]
fn packed_entry_pack_shift_chain() {
    // the packing expression shifts the address once per field
    let e = PageDirEntry {
        addr: 1,
        page_size: false,
        accessed: false,
        pcd: false,
        pwt: false,
        privilege: false,
        rw: false,
        present: false,
    };
    assert_eq!(e.pack().data, 1usize << (12 + 7 + 5 + 4 + 3 + 2 + 1));
    let t = PageTabEntry {
        addr: 0,
        global: true,
        pat: true,
        dirty: true,
        accessed: true,
        pcd: true,
        pwt: true,
        privilege: true,
        rw: true,
        present: true,
    };
    assert_eq!(t.pack().data, 0);
}

#[test]
fn mtrr_range_check() {
    // a range at 0xfee0_0000 of 1 MiB
    assert_eq!(lib::mmio::is_uncacheable_page(0xfee0_0000, 0xfee0_0006, 0xfff0_0800), Ok(()));
    assert_eq!(lib::mmio::is_uncacheable_page(0xfee8_0000, 0xfee0_0006, 0xfff0_0800), Ok(()));
    assert_eq!(lib::mmio::is_uncacheable_page(0xfec0_0000, 0xfee0_0006, 0xfff0_0800), Err(()));
}
