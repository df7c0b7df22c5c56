use vstd::prelude::*;
use vstd::arithmetic::power2::pow2;
use crate::util::get_bit;

verus! {

pub const PAGE_ENTRY_COUNT: usize = 1024;
pub const PAGE_ADDR_LSB: usize = 12;
pub const BIT_GLOBAL: usize = 8;
pub const BIT_PAGESIZE: usize = 7;
pub const BIT_PAT: usize = 7;
pub const BIT_DIRTY: usize = 6;
pub const BIT_ACCESSED: usize = 5;
pub const BIT_PCD: usize = 4;
pub const BIT_PWT: usize = 3;
pub const BIT_PRIVILEGE: usize = 2;
pub const BIT_RW: usize = 1;
pub const BIT_PRESENT: usize = 0;

/// Bit `k` of `data` is set.
pub open spec fn bit(data: usize, k: nat) -> bool {
    (data as nat / pow2(k)) % 2 == 1
}

/// `0` or `1`.
pub open spec fn b2u(b: bool) -> usize {
    if b { 1 } else { 0 }
}

/// A page directory entry in its hardware layout.
#[derive(Clone, Copy, Debug, PartialEq, Eq, Structural)]
pub struct PageDirEntryPacked {
    pub data: usize,
}

/// The fields of a page directory entry.
#[derive(Clone, Copy, Debug, PartialEq, Eq, Structural)]
pub struct PageDirEntry {
    pub addr: usize,
    pub page_size: bool,
    pub accessed: bool,
    pub pcd: bool,
    pub pwt: bool,
    pub privilege: bool,
    pub rw: bool,
    pub present: bool,
}

impl PageDirEntryPacked {
    /// The entry with every bit clear.
    pub fn new() -> (e: PageDirEntryPacked)
        ensures
            e.data == 0,
    {
        PageDirEntryPacked { data: 0 }
    }

    /// The fields of the entry: the bits above the page offset as the address, and the
    /// flag bits.
    pub fn unpack(self) -> (e: PageDirEntry)
        ensures
            e.addr == self.data / 4096,
            e.page_size == bit(self.data, 7),
            e.accessed == bit(self.data, 5),
            e.pcd == bit(self.data, 4),
            e.pwt == bit(self.data, 3),
            e.privilege == bit(self.data, 2),
            e.rw == bit(self.data, 1),
            e.present == bit(self.data, 0),
    {
        let data = self.data;
        proof { vstd::bits::lemma_usize_shr_is_div(data, 12); vstd::arithmetic::power2::lemma2_to64(); }
        PageDirEntry {
            addr: data >> PAGE_ADDR_LSB,
            page_size: get_bit(data, BIT_PAGESIZE),
            accessed: get_bit(data, BIT_ACCESSED),
            pcd: get_bit(data, BIT_PCD),
            pwt: get_bit(data, BIT_PWT),
            privilege: get_bit(data, BIT_PRIVILEGE),
            rw: get_bit(data, BIT_RW),
            present: get_bit(data, BIT_PRESENT),
        }
    }
}

impl PageDirEntry {
    /// The entry in its hardware layout, as the expression of the packing computes it:
    /// shifts bind looser than additions there, so the address is shifted by each bit
    /// position plus the flag that goes there, one after the other.
    pub fn pack(self) -> (p: PageDirEntryPacked)
        ensures
            p.data == ((((((self.addr << (12 + b2u(self.page_size)) as usize)
                << (7 + b2u(self.accessed)) as usize)
                << (5 + b2u(self.pcd)) as usize)
                << (4 + b2u(self.pwt)) as usize)
                << (3 + b2u(self.privilege)) as usize)
                << (2 + b2u(self.rw)) as usize)
                << (1 + b2u(self.present)) as usize,
    {
        let addr = self.addr;
        let data = addr << (PAGE_ADDR_LSB + self.page_size as usize)
            << (BIT_PAGESIZE + self.accessed as usize)
            << (BIT_ACCESSED + self.pcd as usize)
            << (BIT_PCD + self.pwt as usize)
            << (BIT_PWT + self.privilege as usize)
            << (BIT_PRIVILEGE + self.rw as usize)
            << (BIT_RW + self.present as usize);
        PageDirEntryPacked { data }
    }
}

/// A page directory in its hardware layout.
pub struct PageDirectory {
    pub entry: Vec<PageDirEntryPacked>,
}

impl PageDirectory {
    /// A directory whose entries all have every bit clear.
    pub fn new() -> (d: PageDirectory)
        ensures
            d.entry@.len() == PAGE_ENTRY_COUNT,
            forall|i: int| 0 <= i < PAGE_ENTRY_COUNT ==> (#[trigger] d.entry@[i]).data == 0,
    {
        let mut entry: Vec<PageDirEntryPacked> = Vec::new();
        let mut i: usize = 0;
        while i < PAGE_ENTRY_COUNT
            invariant
                i <= PAGE_ENTRY_COUNT,
                entry@.len() == i,
                forall|k: int| 0 <= k < i ==> (#[trigger] entry@[k]).data == 0,
            decreases PAGE_ENTRY_COUNT - i,
        {
            entry.push(PageDirEntryPacked::new());
            i = i + 1;
        }
        PageDirectory { entry }
    }
}

/// A page table entry in its hardware layout.
#[derive(Clone, Copy, Debug, PartialEq, Eq, Structural)]
pub struct PageTabEntryPacked {
    pub data: usize,
}

/// The fields of a page table entry.
#[derive(Clone, Copy, Debug, PartialEq, Eq, Structural)]
pub struct PageTabEntry {
    pub addr: usize,
    pub global: bool,
    pub pat: bool,
    pub dirty: bool,
    pub accessed: bool,
    pub pcd: bool,
    pub pwt: bool,
    pub privilege: bool,
    pub rw: bool,
    pub present: bool,
}

impl PageTabEntryPacked {
    /// The entry with every bit clear.
    pub fn new() -> (e: PageTabEntryPacked)
        ensures
            e.data == 0,
    {
        PageTabEntryPacked { data: 0 }
    }

    /// The fields of the entry: the bits above the page offset as the address, and the
    /// flag bits.
    pub fn unpack(self) -> (e: PageTabEntry)
        ensures
            e.addr == self.data / 4096,
            e.global == bit(self.data, 8),
            e.pat == bit(self.data, 7),
            e.dirty == bit(self.data, 6),
            e.accessed == bit(self.data, 5),
            e.pcd == bit(self.data, 4),
            e.pwt == bit(self.data, 3),
            e.privilege == bit(self.data, 2),
            e.rw == bit(self.data, 1),
            e.present == bit(self.data, 0),
    {
        let data = self.data;
        proof { vstd::bits::lemma_usize_shr_is_div(data, 12); vstd::arithmetic::power2::lemma2_to64(); }
        PageTabEntry {
            addr: data >> PAGE_ADDR_LSB,
            global: get_bit(data, BIT_GLOBAL),
            pat: get_bit(data, BIT_PAT),
            dirty: get_bit(data, BIT_DIRTY),
            accessed: get_bit(data, BIT_ACCESSED),
            pcd: get_bit(data, BIT_PCD),
            pwt: get_bit(data, BIT_PWT),
            privilege: get_bit(data, BIT_PRIVILEGE),
            rw: get_bit(data, BIT_RW),
            present: get_bit(data, BIT_PRESENT),
        }
    }
}

impl PageTabEntry {
    /// The entry in its hardware layout, as the expression of the packing computes it:
    /// shifts bind looser than additions there, so the address is shifted by each bit
    /// position plus the flag that goes there, one after the other.
    pub fn pack(self) -> (p: PageTabEntryPacked)
        ensures
            p.data == ((((((((self.addr << (12 + b2u(self.global)) as usize)
                << (8 + b2u(self.pat)) as usize)
                << (7 + b2u(self.dirty)) as usize)
                << (6 + b2u(self.accessed)) as usize)
                << (5 + b2u(self.pcd)) as usize)
                << (4 + b2u(self.pwt)) as usize)
                << (3 + b2u(self.privilege)) as usize)
                << (2 + b2u(self.rw)) as usize)
                << (1 + b2u(self.present)) as usize,
    {
        let addr = self.addr;
        let data = addr << (PAGE_ADDR_LSB + self.global as usize)
            << (BIT_GLOBAL + self.pat as usize)
            << (BIT_PAT + self.dirty as usize)
            << (BIT_DIRTY + self.accessed as usize)
            << (BIT_ACCESSED + self.pcd as usize)
            << (BIT_PCD + self.pwt as usize)
            << (BIT_PWT + self.privilege as usize)
            << (BIT_PRIVILEGE + self.rw as usize)
            << (BIT_RW + self.present as usize);
        PageTabEntryPacked { data }
    }
}

/// A page table in its hardware layout.
pub struct PageTable {
    pub entry: Vec<PageTabEntryPacked>,
}

impl PageTable {
    /// A table whose entries all have every bit clear.
    pub fn new() -> (t: PageTable)
        ensures
            t.entry@.len() == PAGE_ENTRY_COUNT,
            forall|i: int| 0 <= i < PAGE_ENTRY_COUNT ==> (#[trigger] t.entry@[i]).data == 0,
    {
        let mut entry: Vec<PageTabEntryPacked> = Vec::new();
        let mut i: usize = 0;
        while i < PAGE_ENTRY_COUNT
            invariant
                i <= PAGE_ENTRY_COUNT,
                entry@.len() == i,
                forall|k: int| 0 <= k < i ==> (#[trigger] entry@[k]).data == 0,
            decreases PAGE_ENTRY_COUNT - i,
        {
            entry.push(PageTabEntryPacked::new());
            i = i + 1;
        }
        PageTable { entry }
    }
}

} // verus!
