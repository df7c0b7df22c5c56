use vstd::prelude::*;
use crate::constant::{PAGE_SIZE, PT_ENTRIES};

verus! {

/// Bits of a page directory or page table entry below the address.
#[derive(Clone, Copy, Debug, PartialEq, Eq, Structural)]
pub struct PageFlag {
    pub bits: u32,
}

/// The flags that `PageFlag` knows.
pub const PAGE_FLAG_ALL: u32 = 0x1ff;

impl PageFlag {
    pub fn present() -> (f: PageFlag) ensures f.bits == 1 { PageFlag { bits: 1 } }
    pub fn write() -> (f: PageFlag) ensures f.bits == 2 { PageFlag { bits: 2 } }
    pub fn user() -> (f: PageFlag) ensures f.bits == 4 { PageFlag { bits: 4 } }
    pub fn pwt() -> (f: PageFlag) ensures f.bits == 8 { PageFlag { bits: 8 } }
    pub fn pcd() -> (f: PageFlag) ensures f.bits == 16 { PageFlag { bits: 16 } }
    pub fn accessed() -> (f: PageFlag) ensures f.bits == 32 { PageFlag { bits: 32 } }
    pub fn dirty() -> (f: PageFlag) ensures f.bits == 64 { PageFlag { bits: 64 } }
    pub fn pat() -> (f: PageFlag) ensures f.bits == 128 { PageFlag { bits: 128 } }
    pub fn global() -> (f: PageFlag) ensures f.bits == 256 { PageFlag { bits: 256 } }

    /// No flag.
    pub fn empty() -> (f: PageFlag)
        ensures
            f.bits == 0,
    {
        PageFlag { bits: 0 }
    }

    /// Present, user and writable.
    pub fn user_rdwr() -> (f: PageFlag)
        ensures
            f.bits == 7,
    {
        PageFlag { bits: 7 }
    }

    /// Present and user.
    pub fn user_rdonly() -> (f: PageFlag)
        ensures
            f.bits == 5,
    {
        PageFlag { bits: 5 }
    }

    /// Present, global and writable.
    pub fn kernel_rdwr() -> (f: PageFlag)
        ensures
            f.bits == 0x103,
    {
        PageFlag { bits: 0x103 }
    }

    /// Present and global.
    pub fn kernel_rdonly() -> (f: PageFlag)
        ensures
            f.bits == 0x101,
    {
        PageFlag { bits: 0x101 }
    }

    /// The flags with exactly these bits, known or not.
    pub fn from_bits_retain(bits: u32) -> (f: PageFlag)
        ensures
            f.bits == bits,
    {
        PageFlag { bits }
    }

    /// The known flags among these bits.
    pub fn from_bits_truncate(bits: u32) -> (f: PageFlag)
        ensures
            f.bits == bits & PAGE_FLAG_ALL,
    {
        PageFlag { bits: bits & PAGE_FLAG_ALL }
    }

    pub fn bits(&self) -> (b: u32)
        ensures
            b == self.bits,
    {
        self.bits
    }

    /// The flags of both.
    pub fn union(self, other: PageFlag) -> (f: PageFlag)
        ensures
            f.bits == self.bits | other.bits,
    {
        PageFlag { bits: self.bits | other.bits }
    }

    /// Every flag of `other` is set.
    pub fn contains(&self, other: PageFlag) -> (r: bool)
        ensures
            r == (self.bits & other.bits == other.bits),
    {
        self.bits & other.bits == other.bits
    }

    /// Clears the flags of `other`.
    pub fn remove(&mut self, other: PageFlag)
        ensures
            final(self).bits == old(self).bits & !other.bits,
    {
        self.bits = self.bits & !other.bits;
    }

    /// Sets the flags of `other`.
    pub fn insert(&mut self, other: PageFlag)
        ensures
            final(self).bits == old(self).bits | other.bits,
    {
        self.bits = self.bits | other.bits;
    }
}

/// Page size bit of a directory entry: the entry maps 4 MiB directly.
pub const PDE_PSE: u32 = 128;
/// Address bits of a directory entry that maps 4 MiB.
pub const PDE_ADDR_MASK_4M: u32 = 0xffc0_0000;
/// Address bits of an entry that points to a page or a page table.
pub const ENTRY_ADDR_MASK: u32 = 0xffff_f000;

/// Entry of a page directory: a 4 MiB mapping or the address of a page table.
#[derive(Clone, Copy, Debug, PartialEq, Eq, Structural)]
pub struct PDE {
    pub data: PageFlag,
}

impl PDE {
    /// An entry that maps the 4 MiB at `paddr` with `flags`.
    pub fn new_4m(paddr: usize, flags: PageFlag) -> (e: PDE)
        ensures
            e.data.bits == ((paddr as u32 & PDE_ADDR_MASK_4M) | PDE_PSE) | flags.bits,
    {
        PDE { data: PageFlag::from_bits_retain(((paddr as u32) & PDE_ADDR_MASK_4M) | PDE_PSE).union(flags) }
    }

    /// An entry that points to the page table at `paddr` with `flags`.
    pub fn new(paddr: usize, flags: PageFlag) -> (e: PDE)
        ensures
            e.data.bits == (paddr as u32 & ENTRY_ADDR_MASK) | flags.bits,
    {
        PDE { data: PageFlag::from_bits_retain((paddr as u32) & ENTRY_ADDR_MASK).union(flags) }
    }

    pub open spec fn spec_is_4m(self) -> bool {
        self.data.bits & PDE_PSE != 0
    }

    pub open spec fn spec_addr(self) -> u32 {
        self.data.bits & ENTRY_ADDR_MASK
    }

    /// The entry maps 4 MiB directly.
    pub fn is_4m(&self) -> (r: bool)
        ensures
            r == self.spec_is_4m(),
    {
        (self.data.bits & PDE_PSE) != 0
    }

    /// Address bits of the entry.
    pub fn addr(&self) -> (a: usize)
        ensures
            a == self.spec_addr(),
    {
        (self.data.bits & ENTRY_ADDR_MASK) as usize
    }

    /// Known flags of the entry.
    pub fn flag(&self) -> (f: PageFlag)
        ensures
            f.bits == self.data.bits & PAGE_FLAG_ALL,
    {
        PageFlag::from_bits_truncate(self.data.bits)
    }
}

/// Entry of a page table: the address of a page and its flags.
#[derive(Clone, Copy, Debug, PartialEq, Eq, Structural)]
pub struct PTE {
    pub data: PageFlag,
}

impl PTE {
    /// An entry for the page at `addr` with `flags`.
    pub fn new(addr: usize, flags: PageFlag) -> (e: PTE)
        ensures
            e.data.bits == (addr as u32 & ENTRY_ADDR_MASK) | flags.bits,
    {
        PTE { data: PageFlag::from_bits_retain((addr as u32) & ENTRY_ADDR_MASK).union(flags) }
    }

    /// The entry that maps nothing.
    pub fn empty() -> (e: PTE)
        ensures
            e.data.bits == 0,
    {
        PTE { data: PageFlag::empty() }
    }

    /// Replaces all bits of the entry with `flag`.
    pub fn set_flag(&mut self, flag: PageFlag)
        ensures
            final(self).data == flag,
    {
        self.data = flag;
    }

    pub open spec fn spec_addr(self) -> u32 {
        self.data.bits & ENTRY_ADDR_MASK
    }

    pub open spec fn spec_present(self) -> bool {
        self.data.bits & 1 == 1
    }

    /// Address of the page.
    pub fn paddr(&self) -> (a: usize)
        ensures
            a == self.spec_addr(),
    {
        (self.data.bits & ENTRY_ADDR_MASK) as usize
    }

    /// Address of the page.
    pub fn addr(&self) -> (a: usize)
        ensures
            a == self.spec_addr(),
    {
        (self.data.bits & ENTRY_ADDR_MASK) as usize
    }

    /// Known flags of the entry.
    pub fn flag(&self) -> (f: PageFlag)
        ensures
            f.bits == self.data.bits & PAGE_FLAG_ALL,
    {
        PageFlag::from_bits_truncate(self.data.bits)
    }
}

/// Bit facts about entries: what the address and flag fields of an entry made from an
/// address and flags hold, and the bits of the flag combinations in use.
pub proof fn lemma_entry_bits(b: u32, x: u32, f: u32)
    by (bit_vector)
    ensures
        f <= 0x1ffu32 ==> ((x & 0xffff_f000u32) | f) & 0xffff_f000u32 == x & 0xffff_f000u32,
        f <= 0x1ffu32 ==> ((x & 0xffff_f000u32) | f) & 0x1ffu32 == f,
        f <= 0x1ffu32 ==> ((x & 0xffff_f000u32) | f) & 1u32 == f & 1u32,
        (b & 0xffff_f000u32) % 0x40_0000u32 == 0u32 ==> (b & 0xffff_f000u32) <= 0xffc0_0000u32,
        (b & 0x1ffu32) & 1u32 == b & 1u32,
        b & 0x1ffu32 <= 0x1ffu32,
        ((b & 0x1ffu32) & !1u32) & 1u32 == 0u32,
        x % 4096u32 == 0u32 ==> x & 0xffff_f000u32 == x,
        ((x & 0xffff_f000u32) | 7u32) & 128u32 == 0u32,
        (4u32 | 2u32) | 1u32 == 7u32,
        (2u32 | 256u32) | 1u32 == 0x103u32,
        (2u32 | 256u32) | 0u32 == 0x102u32,
        ((0u32 & 0xffff_f000u32) | 256u32) & 1u32 == 0u32,
        f == 0x103u32 || f == 0x102u32 || f == 0u32 ==>
            ((((x & 0xffc0_0000u32) | 128u32) | f) & 0xffff_f000u32) % 0x40_0000u32 == 0u32,
        f == 0x103u32 || f == 0x102u32 || f == 0u32 ==> (((x & 0xffc0_0000u32) | 128u32) | f) & 128u32 != 0u32,
        f == 0x103u32 ==> ((x & 0xffff_f000u32) | f) & 128u32 == 0u32,
        (1u32 | 256u32) | 2u32 == 0x103u32,
{
}

/// An entry made from an address and flags below the address bits gives back the address,
/// cut to its page, and exactly those flags.
pub proof fn lemma_entry_fields(addr: u32, flags: u32)
    requires
        flags <= PAGE_FLAG_ALL,
    ensures
        ((addr & ENTRY_ADDR_MASK) | flags) & ENTRY_ADDR_MASK == addr & ENTRY_ADDR_MASK,
        ((addr & ENTRY_ADDR_MASK) | flags) & PAGE_FLAG_ALL == flags,
        ((addr & ENTRY_ADDR_MASK) | flags) & 1 == flags & 1,
{
    lemma_entry_bits(0, addr, flags);
}

/// A page table: 1024 entries.
pub struct PT {
    pub entries: Vec<PTE>,
}

impl PT {
    pub open spec fn wf(&self) -> bool {
        self.entries@.len() == PT_ENTRIES
    }

    /// A table whose entries map nothing.
    pub fn new() -> (t: PT)
        ensures
            t.wf(),
            forall|i: int| 0 <= i < PT_ENTRIES ==> (#[trigger] t.entries@[i]).data.bits == 0,
    {
        let mut entries: Vec<PTE> = Vec::new();
        let mut i: usize = 0;
        while i < PT_ENTRIES
            invariant
                i <= PT_ENTRIES,
                entries@.len() == i,
                forall|k: int| 0 <= k < i ==> (#[trigger] entries@[k]).data.bits == 0,
            decreases PT_ENTRIES - i,
        {
            entries.push(PTE::empty());
            i = i + 1;
        }
        PT { entries }
    }

    /// A table that maps, page by page, what the 4 MiB entry `pde_4m` maps, with its flags.
    pub fn new_from_4m(pde_4m: PDE) -> (t: PT)
        requires
            pde_4m.spec_addr() % 0x40_0000 == 0,
        ensures
            t.wf(),
            forall|i: int| 0 <= i < PT_ENTRIES ==> (#[trigger] t.entries@[i]).data.bits
                == (((pde_4m.spec_addr() + PAGE_SIZE * i) as u32 & ENTRY_ADDR_MASK) | (pde_4m.data.bits & PAGE_FLAG_ALL)),
    {
        let addr = pde_4m.addr();
        let flag = pde_4m.flag();
        let mut entries: Vec<PTE> = Vec::new();
        let mut i: usize = 0;
        proof { lemma_entry_bits(pde_4m.data.bits, 0, 0); }
        while i < PT_ENTRIES
            invariant
                i <= PT_ENTRIES,
                addr == pde_4m.spec_addr(),
                addr <= 0xffc0_0000,
                flag.bits == pde_4m.data.bits & PAGE_FLAG_ALL,
                entries@.len() == i,
                forall|k: int| 0 <= k < i ==> (#[trigger] entries@[k]).data.bits
                    == (((addr + PAGE_SIZE * k) as u32 & ENTRY_ADDR_MASK) | flag.bits),
            decreases PT_ENTRIES - i,
        {
            entries.push(PTE::new(addr + PAGE_SIZE * i, flag));
            i = i + 1;
        }
        PT { entries }
    }
}

} // verus!
