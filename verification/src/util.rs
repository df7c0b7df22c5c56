use vstd::prelude::*;
use vstd::arithmetic::power2::{pow2, lemma_pow2_pos, lemma_pow2_adds, lemma_pow2_strictly_increases};
use vstd::bits::{lemma_usize_shr_is_div, lemma_usize_shl_is_mul, lemma_usize_pow2_no_overflow};
use crate::constant::{PAGE_SHIFT, PAGE_SIZE, VM_OFFSET};

verus! {

/// One more than the largest `usize`: the modulus of wrapping arithmetic.
pub open spec fn usize_modulus() -> int {
    usize::MAX as int + 1
}

/// `a` is the power of two `2^k` representable in a `usize`.
pub open spec fn is_pow2_of(a: usize, k: usize) -> bool {
    k < usize::BITS && a == 1usize << k
}

/// Number of binary digits of `n` (0 for 0).
pub open spec fn bit_len(n: nat) -> nat
    decreases n,
{
    if n == 0 { 0 } else { 1 + bit_len(n / 2) }
}

/// Largest multiple of `align` that is not greater than `x`.
pub open spec fn round_down(x: int, align: int) -> int {
    (x / align) * align
}

/// Size class used for small objects: 16, 32, then whole cache lines.
pub open spec fn hw_cache_size(bytes: int) -> int {
    if bytes <= 16 {
        16
    } else if bytes <= 32 {
        32
    } else {
        64 * ((bytes - 1) / 64 + 1)
    }
}

/// Physical address of the kernel's linear map image of `vaddr`.
pub open spec fn spec_virt_to_phys(vaddr: int) -> int {
    (vaddr - VM_OFFSET) % usize_modulus()
}

/// Linear map address of the physical address `paddr`.
pub open spec fn spec_phys_to_virt(paddr: int) -> int {
    (paddr + VM_OFFSET) % usize_modulus()
}

proof fn lemma_shr_12(x: usize)
    ensures
        x >> 12usize == x / 4096,
{
    assert(x >> 12usize == x / 4096) by (bit_vector);
}

proof fn lemma_shl_12(x: usize)
    ensures
        (x << 12usize) as int == (x as int * 4096) % usize_modulus(),
{
    lemma_modulus_is_pow2();
    vstd::arithmetic::power2::lemma2_to64();
    vstd::arithmetic::power2::lemma2_to64_rest();
    if usize::BITS == 32 {
        assert((x << 12usize) as int == (x as int * 4096) % 0x1_0000_0000) by (bit_vector)
            requires
                usize::BITS == 32,
        ;
    } else {
        assert((x << 12usize) as int == (x as int * 4096) % 0x1_0000_0000_0000_0000) by (bit_vector)
            requires
                usize::BITS == 64,
        ;
    }
}

/// Page frame number of an address.
pub fn addr_to_pfn(addr: usize) -> (pfn: usize)
    ensures
        pfn == addr / PAGE_SIZE,
{
    proof { lemma_shr_12(addr); }
    addr >> PAGE_SHIFT
}

/// Page frame number of a 64-bit address.
pub fn addr_to_pfn_64(addr: u64) -> (pfn: u64)
    ensures
        pfn == addr / PAGE_SIZE as u64,
{
    assert(addr >> 12u64 == addr / 4096) by (bit_vector);
    addr >> 12u64
}

/// Address of the first byte of a page frame (wrapping past the top of `usize`).
pub fn pfn_to_addr(pfn: usize) -> (addr: usize)
    ensures
        addr as int == (pfn as int * PAGE_SIZE) % usize_modulus(),
        pfn as int * PAGE_SIZE <= usize::MAX ==> addr == pfn * PAGE_SIZE,
{
    proof {
        lemma_shl_12(pfn);
        if pfn as int * PAGE_SIZE <= usize::MAX {
            vstd::arithmetic::div_mod::lemma_small_mod((pfn * PAGE_SIZE) as nat, usize_modulus() as nat);
        }
    }
    pfn << PAGE_SHIFT
}

/// Number of pages in a block of the given rank.
pub fn rank_to_pages(rank: usize) -> (pages: usize)
    requires
        rank < usize::BITS,
    ensures
        pages == pow2(rank as nat),
{
    proof {
        lemma_usize_pow2_no_overflow(rank as nat);
        lemma_usize_shl_is_mul(1, rank);
    }
    1usize << rank
}

/// Number of bytes in a block of the given rank.
pub fn rank_to_size(rank: usize) -> (size: usize)
    requires
        pow2(rank as nat) * PAGE_SIZE <= usize::MAX,
    ensures
        size == pow2(rank as nat) * PAGE_SIZE,
{
    proof { lemma_rank_fits(rank as nat); }
    rank_to_pages(rank) * PAGE_SIZE
}

proof fn lemma_rank_fits(rank: nat)
    requires
        pow2(rank) * 4096 <= usize::MAX,
    ensures
        rank < usize::BITS,
{
    lemma_modulus_is_pow2();
    if rank >= usize::BITS {
        if rank > usize::BITS {
            lemma_pow2_strictly_increases(usize::BITS as nat, rank);
        }
    }
}

/// Number of binary digits of `x`, computed by repeated halving.
fn bit_length(x: usize) -> (n: usize)
    ensures
        n == bit_len(x as nat),
        n <= usize::BITS,
{
    proof { lemma_bit_len_bound(x); }
    let mut v: usize = x;
    let mut n: usize = 0;
    while v > 0
        invariant
            n + bit_len(v as nat) == bit_len(x as nat),
            n + bit_len(v as nat) <= usize::BITS,
        decreases v,
    {
        n = n + 1;
        v = v / 2;
    }
    n
}

/// `bit_len` of a `usize` never exceeds the width of `usize`.
pub proof fn lemma_bit_len_bound(x: usize)
    ensures
        bit_len(x as nat) <= usize::BITS,
        bit_len(x as nat) == 0 <==> x == 0,
{
    lemma_modulus_is_pow2();
    lemma_bit_len_below(x as nat, usize::BITS as nat);
}

/// A number below `2^k` has at most `k` binary digits.
pub proof fn lemma_bit_len_below(x: nat, k: nat)
    requires
        x < pow2(k),
    ensures
        bit_len(x) <= k,
    decreases k,
{
    if x != 0 {
        if k == 0 {
            vstd::arithmetic::power2::lemma2_to64();
        } else {
            vstd::arithmetic::power2::lemma_pow2_unfold(k);
            lemma_bit_len_below(x / 2, (k - 1) as nat);
        }
    }
}

/// A number is below two to the power of its number of binary digits.
pub proof fn lemma_bit_len_above(x: nat)
    ensures
        x < pow2(bit_len(x)),
    decreases x,
{
    if x == 0 {
        vstd::arithmetic::power2::lemma2_to64();
    } else {
        lemma_bit_len_above(x / 2);
        vstd::arithmetic::power2::lemma_pow2_unfold(bit_len(x));
    }
}

/// Smallest rank whose block holds `size` bytes.
pub fn size_to_rank(size: usize) -> (rank: usize)
    ensures
        rank == if size == 0 { 0 } else { bit_len(((size - 1) / PAGE_SIZE as int) as nat) },
{
    if size == 0 {
        0
    } else {
        proof { lemma_shr_12((size - 1) as usize); }
        bit_length((size - 1) >> PAGE_SHIFT)
    }
}

/// Kernel linear-map address of a physical address (wrapping).
pub fn phys_to_virt(paddr: usize) -> (vaddr: usize)
    ensures
        vaddr == spec_phys_to_virt(paddr as int),
{
    let r = paddr.wrapping_add(VM_OFFSET);
    proof {
        if paddr + VM_OFFSET <= usize::MAX {
            vstd::arithmetic::div_mod::lemma_small_mod((paddr + VM_OFFSET) as nat, usize_modulus() as nat);
        } else {
            vstd::arithmetic::div_mod::lemma_mod_sub_multiples_vanish(paddr + VM_OFFSET, usize_modulus());
            vstd::arithmetic::div_mod::lemma_small_mod((paddr + VM_OFFSET - usize_modulus()) as nat, usize_modulus() as nat);
        }
    }
    r
}

/// Physical address of a kernel linear-map address (wrapping).
pub fn virt_to_phys(vaddr: usize) -> (paddr: usize)
    ensures
        paddr == spec_virt_to_phys(vaddr as int),
{
    let r = vaddr.wrapping_sub(VM_OFFSET);
    proof {
        if vaddr >= VM_OFFSET {
            assert(r == vaddr - VM_OFFSET);
        } else {
            assert(r == vaddr - VM_OFFSET + usize_modulus());
            vstd::arithmetic::div_mod::lemma_mod_add_multiples_vanish(
                vaddr - VM_OFFSET, usize_modulus());
        }
    }
    r
}

/// Frame number of the physical page behind a linear-map frame number.
pub fn pfn_virt_to_phys(pfn: usize) -> (r: usize)
    ensures
        r == spec_virt_to_phys((pfn as int * PAGE_SIZE) % usize_modulus()) / PAGE_SIZE as int,
{
    addr_to_pfn(virt_to_phys(pfn_to_addr(pfn)))
}

/// Linear-map frame number of a physical frame number.
pub fn pfn_phys_to_virt(pfn: usize) -> (r: usize)
    ensures
        r == spec_phys_to_virt((pfn as int * PAGE_SIZE) % usize_modulus()) / PAGE_SIZE as int,
{
    addr_to_pfn(phys_to_virt(pfn_to_addr(pfn)))
}

/// Masking off the low bits of `x` rounds it down to a power-of-two alignment.
pub proof fn lemma_mask_round_down(x: usize, align: usize, k: usize)
    requires
        is_pow2_of(align, k),
    ensures
        x & !((align - 1) as usize) == round_down(x as int, align as int),
        x & !((align - 1) as usize) <= x,
        align == pow2(k as nat),
{
    assert(x & !((((1usize << k) - 1) as usize)) == (x >> k) << k) by (bit_vector)
        requires
            k < usize::BITS,
    ;
    assert(x & !((align - 1) as usize) <= x) by (bit_vector);
    lemma_usize_pow2_no_overflow(k as nat);
    lemma_usize_shl_is_mul(1, k);
    lemma_usize_shr_is_div(x, k);
    lemma_pow2_pos(k as nat);
    let q = x >> k;
    assert(q * pow2(k as nat) <= x) by {
        vstd::arithmetic::div_mod::lemma_fundamental_div_mod(x as int, pow2(k as nat) as int);
        vstd::arithmetic::mul::lemma_mul_is_commutative(q as int, pow2(k as nat) as int);
    }
    lemma_usize_shl_is_mul(q, k);
}

/// Aligned address strictly below `p`.
pub fn prev_align(p: usize, align: usize) -> (r: usize)
    requires
        p >= 1,
        align >= 1,
    ensures
        r == ((p - 1) as usize) & !((align - 1) as usize),
        forall|k: usize| #[trigger] is_pow2_of(align, k) ==> r == round_down(p - 1, align as int),
{
    proof {
        assert forall|k: usize| #[trigger] is_pow2_of(align, k) implies
            ((p - 1) as usize) & !((align - 1) as usize) == round_down(p - 1, align as int) by {
            lemma_mask_round_down((p - 1) as usize, align, k);
        }
    }
    (p - 1) & !(align - 1)
}

/// Smallest aligned address not below `p`.
pub fn next_align(p: usize, align: usize) -> (r: usize)
    requires
        align >= 1,
        p + align - 1 <= usize::MAX,
    ensures
        r == ((p + align - 1) as usize) & !((align - 1) as usize),
        forall|k: usize| #[trigger] is_pow2_of(align, k) ==> r == round_down(p + align - 1, align as int),
{
    proof {
        assert forall|k: usize| #[trigger] is_pow2_of(align, k) implies
            ((p + align - 1) as usize) & !((align - 1) as usize) == round_down(p + align - 1, align as int) by {
            lemma_mask_round_down((p + align - 1) as usize, align, k);
        }
    }
    (p + (align - 1)) & !(align - 1)
}

/// Smallest aligned 64-bit address not below `p`.
pub fn next_align_64(p: u64, align: u64) -> (r: u64)
    requires
        align >= 1,
        p + align - 1 <= u64::MAX,
    ensures
        r == ((p + align - 1) as u64) & !((align - 1) as u64),
        forall|k: u64| k < 64 && align == #[trigger] (1u64 << k) ==> r == round_down(p + align - 1, align as int),
{
    let q: u64 = p + (align - 1);
    proof {
        assert forall|k: u64| k < 64 && align == #[trigger] (1u64 << k) implies
            q & !((align - 1) as u64) == round_down(q as int, align as int) by {
            assert(q & !((((1u64 << k) - 1) as u64)) == (q >> k) << k) by (bit_vector)
                requires
                    k < 64,
            ;
            vstd::bits::lemma_u64_pow2_no_overflow(k as nat);
            vstd::bits::lemma_u64_shl_is_mul(1, k);
            vstd::bits::lemma_u64_shr_is_div(q, k);
            lemma_pow2_pos(k as nat);
            let d = q >> k;
            assert(d * pow2(k as nat) <= q) by {
                vstd::arithmetic::div_mod::lemma_fundamental_div_mod(q as int, pow2(k as nat) as int);
                vstd::arithmetic::mul::lemma_mul_is_commutative(d as int, pow2(k as nat) as int);
            }
            vstd::bits::lemma_u64_shl_is_mul(d, k);
        }
    }
    q & !(align - 1)
}

/// `addr` is a multiple of `align`.
pub fn is_aligned(addr: usize, align: usize) -> (r: bool)
    requires
        align != 0,
    ensures
        r == (addr % align == 0),
{
    addr % align == 0
}

/// `addr` is a multiple of `align`.
pub fn is_aligned_64(addr: u64, align: u64) -> (r: bool)
    requires
        align != 0,
    ensures
        r == (addr % align == 0),
{
    addr % align == 0
}

proof fn lemma_page_shift_rank(rank: usize)
    requires
        rank < usize::BITS,
    ensures
        ((1usize << 12usize) << rank) as int == (pow2(rank as nat + 12) as int) % usize_modulus(),
{
    assert((1usize << 12usize) == 4096usize) by (bit_vector);
    lemma_pow2_adds(rank as nat, 12);
    vstd::arithmetic::power2::lemma2_to64();
    lemma_pow2_pos(rank as nat);
    lemma_modulus_is_pow2();
    if rank + 12 < usize::BITS {
        lemma_usize_pow2_no_overflow((rank + 12) as nat);
        lemma_usize_shl_is_mul(4096, rank);
        assert(pow2(rank as nat + 12) < usize_modulus());
        vstd::arithmetic::div_mod::lemma_small_mod(pow2(rank as nat + 12), usize_modulus() as nat);
    } else {
        assert(4096usize << rank == 0usize) by (bit_vector)
            requires
                rank < usize::BITS,
                rank + 12 >= usize::BITS,
        ;
        lemma_pow2_adds(usize::BITS as nat, (rank + 12 - usize::BITS) as nat);
        lemma_pow2_pos((rank + 12 - usize::BITS) as nat);
        vstd::arithmetic::div_mod::lemma_mod_multiples_basic(
            pow2((rank + 12 - usize::BITS) as nat) as int, usize_modulus());
        vstd::arithmetic::mul::lemma_mul_is_commutative(
            pow2((rank + 12 - usize::BITS) as nat) as int, usize_modulus());
    }
}

/// The modulus of `usize` arithmetic is `2^BITS`.
pub proof fn lemma_modulus_is_pow2()
    ensures
        usize_modulus() == pow2(usize::BITS as nat),
        usize::BITS == 32 || usize::BITS == 64,
{
    vstd::layout::unsigned_int_max_values();
    assert(usize::BITS == 32 || usize::BITS == 64);
}

/// Alignment of a block of the given rank (wrapping past the top of `usize`).
pub fn align_of_rank(rank: usize) -> (r: usize)
    requires
        rank < usize::BITS,
    ensures
        r as int == pow2(rank as nat + 12) as int % usize_modulus(),
{
    proof { lemma_page_shift_rank(rank); }
    1usize << PAGE_SHIFT << rank
}

/// Size of a block of the given rank (wrapping past the top of `usize`).
pub fn size_of_rank(rank: usize) -> (r: usize)
    requires
        rank < usize::BITS,
    ensures
        r as int == pow2(rank as nat + 12) as int % usize_modulus(),
{
    proof { lemma_page_shift_rank(rank); }
    1usize << PAGE_SHIFT << rank
}

/// `r` is the index of the lowest set bit of `data`.
pub open spec fn is_lowest_set_bit(data: usize, r: usize) -> bool {
    &&& r < usize::BITS
    &&& (data >> r) & 1 == 1
    &&& data & (((1usize << r) - 1) as usize) == 0
}

/// Index of the lowest set bit.
pub fn bit_scan_forward(data: usize) -> (r: usize)
    requires
        data != 0,
    ensures
        is_lowest_set_bit(data, r),
{
    let mut r: usize = 0;
    assert(data & (((1usize << 0usize) - 1) as usize) == 0) by (bit_vector);
    while (data >> r) & 1 == 0
        invariant
            data != 0,
            r < usize::BITS,
            data & (((1usize << r) - 1) as usize) == 0,
        decreases usize::BITS - r,
    {
        assert(r + 1 < usize::BITS && data & (((1usize << ((r + 1) as usize)) - 1) as usize) == 0) by (bit_vector)
            requires
                data != 0,
                r < usize::BITS,
                data & (((1usize << r) - 1) as usize) == 0,
                (data >> r) & 1 == 0,
        ;
        r = r + 1;
    }
    assert((data >> r) & 1 != 0 ==> (data >> r) & 1 == 1) by (bit_vector);
    r
}

/// Index of the highest set bit.
pub fn bit_scan_reverse(data: usize) -> (r: usize)
    requires
        data != 0,
    ensures
        r + 1 == bit_len(data as nat),
        r < usize::BITS,
{
    proof { lemma_bit_len_bound(data); }
    bit_length(data) - 1
}

/// Testing whether the `nth_bit` bit of `data` is set.
pub fn get_bit(data: usize, nth_bit: usize) -> (r: bool)
    requires
        nth_bit < usize::BITS,
    ensures
        r == ((data as nat / pow2(nth_bit as nat)) % 2 == 1),
{
    proof { lemma_usize_shr_is_div(data, nth_bit); }
    let v = data >> nth_bit;
    assert((v & 1 == 1) == (v % 2 == 1)) by (bit_vector);
    (data >> nth_bit) & 0x1 == 0x1
}

/// Size class of an object of `bytes` bytes: 16, 32, or whole 64-byte cache lines.
pub fn align_with_hw_cache(bytes: usize) -> (r: usize)
    requires
        hw_cache_size(bytes as int) <= usize::MAX,
    ensures
        r == hw_cache_size(bytes as int),
{
    if bytes <= 16 {
        16
    } else if bytes <= 32 {
        32
    } else {
        64 * ((bytes - 1) / 64 + 1)
    }
}

/// Rounding up to a page boundary with `next_align`, where it cannot overflow.
pub proof fn lemma_round_up_page(p: usize)
    requires
        p + PAGE_SIZE <= usize::MAX,
    ensures
        is_pow2_of(PAGE_SIZE, 12),
        round_down(p + PAGE_SIZE - 1, PAGE_SIZE as int) == (p + PAGE_SIZE - 1) / PAGE_SIZE as int * PAGE_SIZE,
{
    lemma_modulus_is_pow2();
    vstd::arithmetic::power2::lemma2_to64();
    assert((1usize << 12usize) == 4096usize) by (bit_vector);
}


/// `virt_to_phys` undoes `phys_to_virt`, for every address (wrapping both ways).
pub proof fn lemma_phys_virt_roundtrip(p: usize)
    ensures
        spec_virt_to_phys(spec_phys_to_virt(p as int)) == p,
{
    let m = usize_modulus();
    vstd::layout::unsigned_int_max_values();
    vstd::arithmetic::div_mod::lemma_sub_mod_noop(p + VM_OFFSET, VM_OFFSET as int, m);
    vstd::arithmetic::div_mod::lemma_small_mod(VM_OFFSET as nat, m as nat);
    vstd::arithmetic::div_mod::lemma_small_mod(p as nat, m as nat);
    assert(p + VM_OFFSET - VM_OFFSET == p);
}

/// For a power-of-two alignment, `is_aligned` is the mask test `addr & (align - 1) == 0`.
pub proof fn lemma_aligned_is_mask(addr: usize, align: usize, k: usize)
    requires
        is_pow2_of(align, k),
    ensures
        (addr % align == 0) == (addr & ((align - 1) as usize) == 0),
{
    let m = (align - 1) as usize;
    assert((addr & m) + (addr & !m) == addr) by (bit_vector);
    lemma_mask_round_down(addr, align, k);
    lemma_pow2_pos(k as nat);
    vstd::arithmetic::div_mod::lemma_fundamental_div_mod(addr as int, align as int);
    vstd::arithmetic::mul::lemma_mul_is_commutative(addr as int / align as int, align as int);
}

/// What `next_align` returns is aligned, and not below `p`, for a power-of-two alignment.
pub proof fn lemma_next_align_is_aligned(p: usize, align: usize, k: usize)
    requires
        is_pow2_of(align, k),
        p + align - 1 <= usize::MAX,
    ensures
        (((p + align - 1) as usize) & !((align - 1) as usize)) % align == 0,
        p <= ((p + align - 1) as usize) & !((align - 1) as usize),
        ((p + align - 1) as usize) & !((align - 1) as usize) < p + align,
{
    let q = (p + align - 1) as usize;
    lemma_mask_round_down(q, align, k);
    lemma_pow2_pos(k as nat);
    vstd::arithmetic::div_mod::lemma_mod_multiples_basic(q as int / align as int, align as int);
    vstd::arithmetic::div_mod::lemma_fundamental_div_mod(q as int, align as int);
    assert(round_down(q as int, align as int) == q - q as int % align as int) by {
        vstd::arithmetic::mul::lemma_mul_is_commutative(q as int / align as int, align as int);
    }
}

/// The size and the alignment of a block of a rank are its bytes: `size_of_rank`,
/// `align_of_rank` and `rank_to_size` give `rank_to_pages(rank) * PAGE_SIZE`, where it
/// fits in a `usize`.
pub proof fn lemma_rank_sizes_agree(rank: usize)
    requires
        rank < usize::BITS,
        pow2(rank as nat) * PAGE_SIZE <= usize::MAX,
    ensures
        pow2(rank as nat + 12) as int % usize_modulus() == pow2(rank as nat) * PAGE_SIZE,
{
    lemma_pow2_adds(rank as nat, 12);
    vstd::arithmetic::power2::lemma2_to64();
    vstd::arithmetic::mul::lemma_mul_is_commutative(pow2(rank as nat) as int, 4096);
    vstd::arithmetic::div_mod::lemma_small_mod((pow2(rank as nat) * PAGE_SIZE) as nat, usize_modulus() as nat);
}


/// Size classes of small objects: 16 bytes up to 16, 32 up to 32, and above that the least
/// whole number of 64-byte cache lines that holds the object.
pub proof fn lemma_hw_cache_size_rounds(bytes: int)
    requires
        0 <= bytes,
    ensures
        bytes <= 16 ==> hw_cache_size(bytes) == 16,
        16 < bytes <= 32 ==> hw_cache_size(bytes) == 32,
        bytes > 32 ==> hw_cache_size(bytes) % 64 == 0 && bytes <= hw_cache_size(bytes) < bytes + 64,
{
    if bytes > 32 {
        let q = (bytes - 1) / 64;
        assert(64 * (q + 1) % 64 == 0) by (nonlinear_arith);
        assert(bytes <= 64 * (q + 1) < bytes + 64) by (nonlinear_arith)
            requires q == (bytes - 1) / 64, bytes > 32;
    }
}


/// A positive number is at least two to the power of its number of binary digits less one.
pub proof fn lemma_bit_len_at_least(x: nat)
    requires
        x > 0,
    ensures
        bit_len(x) >= 1,
        pow2((bit_len(x) - 1) as nat) <= x,
    decreases x,
{
    if x == 1 {
        assert(bit_len(0) == 0);
        assert(bit_len(1) == 1);
        vstd::arithmetic::power2::lemma2_to64();
    } else {
        lemma_bit_len_at_least(x / 2);
        vstd::arithmetic::power2::lemma_pow2_unfold((bit_len(x) - 1) as nat);
    }
}

} // verus!
