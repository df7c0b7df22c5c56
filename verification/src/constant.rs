use vstd::prelude::*;

verus! {

pub const PAGE_SHIFT: usize = 12;
pub const PAGE_SIZE: usize = 4096;
pub const PAGE_MASK: usize = !(PAGE_SIZE - 1);

pub const PT_ENTRIES: usize = 1024;
pub const PD_ENTRIES: usize = 1024;
pub const PT_COVER_SIZE: usize = 0x40_0000;

// Virtual address space
// OFFSET 0         3072MB          3972MB           4072MB      4076MB          4096MB
//        [ USER(3GB) | KERNEL(896MB) | VMALLOC(104MB) | KMAP(4MB) | HIGH_IO(20MB) ]
pub const VM_OFFSET: usize = 0xc000_0000;
pub const VMALLOC_OFFSET: usize = 0xf800_0000;
pub const KMAP_OFFSET: usize = 0xfe80_0000;
pub const HIGH_IO_OFFSET: usize = 0xfec0_0000;

/// Number of page frames in a 4 GiB physical space.
pub const LAST_PFN: usize = 0x10_0000;

pub const MAX_RANK: usize = 10;

/// Maximum allocation size per request.
pub const BLOCK_SIZE: usize = 0x40_0000;

pub const KB: usize = 1024;
pub const MB: usize = 0x10_0000;
pub const GB: usize = 0x4000_0000;
pub const SECTOR_SIZE: usize = 512;

pub const MAX_CAHCE_SIZE: usize = 2048;
pub const MIN_CAHCE_SIZE: usize = 64;

/// Number of free pages under which the out-of-memory handler keeps reclaiming.
pub const OOM_WATER_MARK: usize = 25600;

} // verus!
