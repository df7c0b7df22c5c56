use vstd::prelude::*;
use vstd::arithmetic::power2::{pow2, lemma_pow2_pos, lemma_pow2_unfold, lemma_pow2_adds, lemma2_to64};

verus! {

/// Number of frames in a block of rank `r`.
pub open spec fn psize(r: int) -> int {
    pow2(r as nat) as int
}

/// Frame `p` lies in the block of rank `r` that starts at `h`.
pub open spec fn in_block(h: int, r: int, p: int) -> bool {
    h <= p < h + psize(r)
}

/// The block of rank `r` at `h` starts on a multiple of its size.
pub open spec fn block_aligned(h: int, r: int) -> bool {
    h % psize(r) == 0
}

/// Start of the buddy of the block of rank `r` at `h`.
pub open spec fn buddy_of(h: int, r: int) -> int {
    if (h / psize(r)) % 2 == 0 { h + psize(r) } else { h - psize(r) }
}

pub proof fn lemma_psize(r: int)
    requires
        0 <= r,
    ensures
        psize(r) > 0,
        psize(r + 1) == 2 * psize(r),
{
    lemma_pow2_pos(r as nat);
    lemma_pow2_unfold((r + 1) as nat);
}

pub proof fn lemma_psize_small(r: int)
    requires
        0 <= r <= 10,
    ensures
        1 <= psize(r) <= 1024,
{
    lemma2_to64();
    assert(psize(0) == 1 && psize(1) == 2 && psize(2) == 4 && psize(3) == 8 && psize(4) == 16
        && psize(5) == 32 && psize(6) == 64 && psize(7) == 128 && psize(8) == 256 && psize(9) == 512
        && psize(10) == 1024);
}

/// Two blocks of one rank, each on a multiple of its size, either coincide or are apart.
pub proof fn lemma_aligned_same(h: int, b: int, s: int)
    requires
        0 <= s,
        0 <= h,
        0 <= b,
        block_aligned(h, s),
        block_aligned(b, s),
        in_block(h, s, b),
    ensures
        h == b,
{
    lemma_psize(s);
    let n = psize(s);
    let qh = h / n;
    let qb = b / n;
    vstd::arithmetic::div_mod::lemma_fundamental_div_mod(h, n);
    vstd::arithmetic::div_mod::lemma_fundamental_div_mod(b, n);
    assert(h == qh * n) by (nonlinear_arith) requires h == n * qh + h % n, h % n == 0;
    assert(b == qb * n) by (nonlinear_arith) requires b == n * qb + b % n, b % n == 0;
    assert(qh <= qb) by (nonlinear_arith)
        requires h == qh * n, b == qb * n, h <= b, n > 0;
    assert(qb < qh + 1) by (nonlinear_arith)
        requires h == qh * n, b == qb * n, b < h + n, n > 0;
}

/// A smaller aligned block that starts inside a larger aligned block lies wholly inside it.
pub proof fn lemma_nested(a: int, s: int, b: int, t: int)
    requires
        0 <= t <= s,
        0 <= a,
        0 <= b,
        block_aligned(a, s),
        block_aligned(b, t),
        in_block(a, s, b),
    ensures
        b + psize(t) <= a + psize(s),
{
    lemma_psize(t);
    lemma_psize(s - t);
    lemma_pow2_adds(t as nat, (s - t) as nat);
    let tt = psize(t);
    let q = psize(s - t);
    assert(psize(s) == tt * q);
    let ss = psize(s);
    vstd::arithmetic::div_mod::lemma_fundamental_div_mod(a, ss);
    vstd::arithmetic::div_mod::lemma_fundamental_div_mod(b, tt);
    let aa = a / ss;
    let bb = b / tt;
    assert(a == aa * ss) by (nonlinear_arith) requires a == ss * aa + a % ss, a % ss == 0;
    assert(b == bb * tt) by (nonlinear_arith) requires b == tt * bb + b % tt, b % tt == 0;
    assert(a == (aa * q) * tt) by (nonlinear_arith)
        requires a == aa * ss, ss == tt * q;
    assert(aa * q <= bb) by (nonlinear_arith)
        requires a == (aa * q) * tt, b == bb * tt, a <= b, tt > 0;
    assert(bb < aa * q + q) by (nonlinear_arith)
        requires a == (aa * q) * tt, b == bb * tt, b < a + tt * q, tt > 0;
    assert(b + tt <= a + ss) by (nonlinear_arith)
        requires b == bb * tt, a == (aa * q) * tt, ss == tt * q, bb + 1 <= aa * q + q, tt > 0;
}

/// The buddy of an aligned block is aligned, and the pair forms the aligned block of the
/// next rank that starts at the lower of the two.
pub proof fn lemma_buddy(h: int, r: int)
    requires
        0 <= r,
        0 <= h,
        block_aligned(h, r),
    ensures
        buddy_of(h, r) >= 0,
        block_aligned(buddy_of(h, r), r),
        buddy_of(h, r) != h,
        block_aligned(if h < buddy_of(h, r) { h } else { buddy_of(h, r) }, r + 1),
        (if h < buddy_of(h, r) { h } else { buddy_of(h, r) }) + psize(r + 1)
            == (if h < buddy_of(h, r) { buddy_of(h, r) } else { h }) + psize(r),
        (h / psize(r)) % 2 == 0 ==> buddy_of(h, r) == h + psize(r),
        (h / psize(r)) % 2 != 0 ==> buddy_of(h, r) == h - psize(r),
{
    lemma_psize(r);
    let p = psize(r);
    let k = h / p;
    vstd::arithmetic::div_mod::lemma_fundamental_div_mod(h, p);
    assert(h == k * p) by (nonlinear_arith) requires h == p * k + h % p, h % p == 0;
    assert(k >= 0) by (nonlinear_arith) requires h == k * p, h >= 0, p > 0;
    if k % 2 == 0 {
        let j = k / 2;
        assert(k == 2 * j);
        assert(h == j * (2 * p)) by (nonlinear_arith) requires h == k * p, k == 2 * j;
        assert((h + p) == (k + 1) * p) by (nonlinear_arith) requires h == k * p;
        vstd::arithmetic::div_mod::lemma_mod_multiples_basic(k + 1, p);
        vstd::arithmetic::div_mod::lemma_mod_multiples_basic(j, 2 * p);
    } else {
        let j = k / 2;
        assert(k == 2 * j + 1);
        assert(k >= 1);
        assert(h - p == j * (2 * p)) by (nonlinear_arith) requires h == k * p, k == 2 * j + 1;
        assert(h - p == (k - 1) * p) by (nonlinear_arith) requires h == k * p;
        assert(h - p >= 0) by (nonlinear_arith) requires h - p == (k - 1) * p, k >= 1, p > 0;
        vstd::arithmetic::div_mod::lemma_mod_multiples_basic(k - 1, p);
        vstd::arithmetic::div_mod::lemma_mod_multiples_basic(j, 2 * p);
    }
}

/// The buddy of the buddy of an aligned block is the block itself.
pub proof fn lemma_buddy_involution(h: int, r: int)
    requires
        0 <= r,
        0 <= h,
        block_aligned(h, r),
    ensures
        buddy_of(buddy_of(h, r), r) == h,
{
    lemma_psize(r);
    lemma_buddy(h, r);
    let p = psize(r);
    let k = h / p;
    vstd::arithmetic::div_mod::lemma_fundamental_div_mod(h, p);
    assert(h == p * k);
    let b = buddy_of(h, r);
    if k % 2 == 0 {
        assert(b == p * (k + 1)) by (nonlinear_arith) requires b == h + p, h == p * k;
        vstd::arithmetic::div_mod::lemma_div_multiples_vanish(k + 1, p);
        assert(b / p == k + 1);
    } else {
        assert(b == p * (k - 1)) by (nonlinear_arith) requires b == h - p, h == p * k;
        vstd::arithmetic::div_mod::lemma_div_multiples_vanish(k - 1, p);
        assert(b / p == k - 1);
    }
}

/// The aligned block of a higher rank that holds frame `x` starts at or before `x`.
pub proof fn lemma_round_down(x: int, t: int)
    requires
        0 <= x,
        0 <= t,
    ensures
        block_aligned((x / psize(t)) * psize(t), t),
        in_block((x / psize(t)) * psize(t), t, x),
        (x / psize(t)) * psize(t) >= 0,
{
    lemma_psize(t);
    let n = psize(t);
    vstd::arithmetic::div_mod::lemma_fundamental_div_mod(x, n);
    vstd::arithmetic::div_mod::lemma_mod_multiples_basic(x / n, n);
    assert(x / n >= 0) by (nonlinear_arith) requires x >= 0, n > 0, x == n * (x / n) + x % n, 0 <= x % n < n;
    assert((x / n) * n >= 0) by (nonlinear_arith) requires x / n >= 0, n > 0;
    vstd::arithmetic::mul::lemma_mul_is_commutative(x / n, n);
}

/// A block aligned at a rank is aligned at every smaller rank.
pub proof fn lemma_aligned_lower(h: int, s: int, t: int)
    requires
        0 <= t <= s,
        block_aligned(h, s),
    ensures
        block_aligned(h, t),
{
    lemma_psize(t);
    lemma_psize(s - t);
    lemma_pow2_adds(t as nat, (s - t) as nat);
    lemma_psize(s);
    vstd::arithmetic::div_mod::lemma_fundamental_div_mod(h, psize(s));
    let a = h / psize(s);
    assert(h == (a * psize(s - t)) * psize(t)) by (nonlinear_arith)
        requires h == psize(s) * a + h % psize(s), h % psize(s) == 0, psize(s) == psize(t) * psize(s - t);
    vstd::arithmetic::div_mod::lemma_mod_multiples_basic(a * psize(s - t), psize(t));
}

/// A block of rank below the maximum, inside a range made of whole maximal blocks, has
/// its buddy and their common parent inside the range too.
pub proof fn lemma_buddy_in_range(h: int, r: int, base: int, top: int, max: int)
    requires
        0 <= r < max,
        0 <= base <= h,
        h + psize(r) <= top,
        block_aligned(h, r),
        block_aligned(base, max),
        block_aligned(top, max),
    ensures
        base <= buddy_of(h, r),
        buddy_of(h, r) + psize(r) <= top,
        base <= (if h < buddy_of(h, r) { h } else { buddy_of(h, r) }),
        (if h < buddy_of(h, r) { h } else { buddy_of(h, r) }) + psize(r + 1) <= top,
{
    lemma_psize(r);
    lemma_psize(max);
    lemma_buddy(h, r);
    let b = buddy_of(h, r);
    let par = if h < b { h } else { b };
    let m = (h / psize(max)) * psize(max);
    lemma_round_down(h, max);
    if base > m {
        lemma_aligned_same(m, base, max);
    }
    if top < m + psize(max) {
        assert(top > h);
        lemma_aligned_same(m, top, max);
    }
    lemma_aligned_lower(m, max, r + 1);
    if par < m {
        assert(in_block(par, r + 1, m));
        lemma_aligned_same(par, m, r + 1);
    }
    lemma_nested(m, max, par, r + 1);
}

} // verus!
