//! Bits of a 32-bit mask, and how many of them are set.
use vstd::prelude::*;

verus! {

/// Bit `k` of `x` is set.
pub open spec fn bit(x: u32, k: int) -> bool {
    (x >> (k as u32)) & 1 == 1
}

/// The number of ones in the binary representation of `x`.
pub open spec fn ones(x: u32) -> int
    decreases x,
{
    if x == 0 {
        0
    } else {
        (x % 2) + ones(x / 2)
    }
}

/// How many of the numbers from 0 up to `n` are in `p`.
pub open spec fn hits(p: spec_fn(int) -> bool, n: int) -> int
    decreases n,
{
    if n <= 0 {
        0
    } else {
        hits(p, n - 1) + if p(n - 1) { 1int } else { 0 }
    }
}

/// `u32::count_ones` gives the number of ones in the binary representation.
pub assume_specification[ u32::count_ones ](x: u32) -> (r: u32)
    ensures
        r == ones(x),
;

pub proof fn lemma_hits_same(p: spec_fn(int) -> bool, q: spec_fn(int) -> bool, n: int)
    requires
        forall|k: int| 0 <= k < n ==> #[trigger] p(k) == q(k),
    ensures
        hits(p, n) == hits(q, n),
    decreases n,
{
    if n > 0 {
        lemma_hits_same(p, q, n - 1);
    }
}

pub proof fn lemma_hits_bounds(p: spec_fn(int) -> bool, n: int)
    requires
        0 <= n,
    ensures
        0 <= hits(p, n) <= n,
    decreases n,
{
    if n > 0 {
        lemma_hits_bounds(p, n - 1);
    }
}

/// Numbers that are not in `p` add nothing.
pub proof fn lemma_hits_tail(p: spec_fn(int) -> bool, m: int, n: int)
    requires
        0 <= m <= n,
        forall|k: int| m <= k < n ==> !#[trigger] p(k),
    ensures
        hits(p, n) == hits(p, m),
    decreases n,
{
    if n > m {
        lemma_hits_tail(p, m, n - 1);
    }
}

/// The numbers that are not in `p` are the others.
pub proof fn lemma_hits_complement(p: spec_fn(int) -> bool, q: spec_fn(int) -> bool, n: int)
    requires
        0 <= n,
        forall|k: int| 0 <= k < n ==> #[trigger] p(k) == !q(k),
    ensures
        hits(p, n) == n - hits(q, n),
    decreases n,
{
    if n > 0 {
        lemma_hits_complement(p, q, n - 1);
    }
}

proof fn lemma_shift_step(x: u32, k: u32)
    by (bit_vector)
    requires
        k < 32,
    ensures
        (x >> k) / 2 == x >> ((k + 1) as u32),
        (x >> k) % 2 == 1 <==> (x >> k) & 1 == 1,
        (x >> k) == 0 ==> (x >> k) & 1 != 1,
{
}

proof fn lemma_ones_split(x: u32, k: int)
    requires
        0 <= k <= 32,
    ensures
        ones(x) == hits(|j: int| bit(x, j), k) + ones(x >> (k as u32)),
    decreases k,
{
    if k == 0 {
        assert(x >> 0u32 == x) by (bit_vector);
    } else {
        lemma_ones_split(x, k - 1);
        lemma_shift_step(x, (k - 1) as u32);
    }
}

/// The ones of a mask are its bits that are set.
pub proof fn lemma_ones(x: u32)
    ensures
        ones(x) == hits(|k: int| bit(x, k), 32),
        0 <= ones(x) <= 32,
{
    lemma_ones_split(x, 32);
    assert(x >> 32u32 == 0) by (bit_vector);
    lemma_hits_bounds(|k: int| bit(x, k), 32);
}

proof fn lemma_set_bit_raw(x: u32, k: u32, b: bool, j: u32)
    by (bit_vector)
    requires
        k < 32,
        j < 32,
        x >> k == 0,
    ensures
        b ==> (((x | (1u32 << k)) >> j) & 1 == 1) == (if j == k { true } else { (x >> j) & 1 == 1 }),
        !b && j == k ==> (x >> j) & 1 != 1,
        k < 31 ==> (x | (1u32 << k)) >> ((k + 1) as u32) == 0 && x >> ((k + 1) as u32) == 0,
{
}

/// The mask with bit `k` set as well.
pub proof fn lemma_set_bit(x: u32, k: int)
    requires
        0 <= k < 32,
        x >> (k as u32) == 0,
    ensures
        forall|j: int|
            0 <= j < 32 ==> #[trigger] bit(x | (1u32 << (k as u32)), j) == (j == k || bit(x, j)),
        !bit(x, k),
        k < 31 ==> (x | (1u32 << (k as u32))) >> ((k + 1) as u32) == 0,
        k < 31 ==> x >> ((k + 1) as u32) == 0,
{
    lemma_set_bit_raw(x, k as u32, true, k as u32);
    lemma_set_bit_raw(x, k as u32, false, k as u32);
    assert forall|j: int| 0 <= j < 32 implies #[trigger] bit(x | (1u32 << (k as u32)), j) == (j == k
        || bit(x, j)) by {
        lemma_set_bit_raw(x, k as u32, true, j as u32);
    }
}

proof fn lemma_starts_raw(w: u32, c: u32, k: u32)
    by (bit_vector)
    requires
        k < 32,
        c <= 1,
    ensures
        (((!w & ((w << 1) | c)) >> k) & 1 == 1) == ((w >> k) & 1 != 1 && (if k == 0 {
            c == 1
        } else {
            (w >> ((k - 1) as u32)) & 1 == 1
        })),
{
}

/// Bit `k` of `!w & ((w << 1) | c)` is set where bit `k` of `w` is not and the
/// one below it is; `c` stands below bit 0.
pub proof fn lemma_starts(w: u32, c: u32, k: int)
    requires
        0 <= k < 32,
        c <= 1,
    ensures
        bit(!w & ((w << 1) | c), k) == (!bit(w, k) && if k == 0 { c == 1 } else { bit(w, k - 1) }),
{
    lemma_starts_raw(w, c, k as u32);
}

proof fn lemma_low_mask_raw(n: u32, k: u32)
    by (bit_vector)
    requires
        n < 32,
        k < 32,
    ensures
        1u32 << n >= 1,
        ((((1u32 << n) - 1) as u32 >> k) & 1 == 1) == (k < n),
{
}

/// The bits below bit `n`.
pub proof fn lemma_low_mask(n: int)
    requires
        0 <= n < 32,
    ensures
        1u32 << (n as u32) >= 1,
        forall|k: int| 0 <= k < 32 ==> #[trigger] bit(((1u32 << (n as u32)) - 1) as u32, k) == (k < n),
{
    lemma_low_mask_raw(n as u32, 0);
    assert forall|k: int| 0 <= k < 32 implies #[trigger] bit(((1u32 << (n as u32)) - 1) as u32, k) == (
    k < n) by {
        lemma_low_mask_raw(n as u32, k as u32);
    }
}

/// Every bit of the greatest mask is set.
pub proof fn lemma_full_mask()
    ensures
        forall|k: int| 0 <= k < 32 ==> #[trigger] bit(u32::MAX, k),
{
    assert forall|k: int| 0 <= k < 32 implies #[trigger] bit(u32::MAX, k) by {
        let j = k as u32;
        assert(j < 32 ==> (0xFFFF_FFFFu32 >> j) & 1 == 1) by (bit_vector);
    }
}

/// Bits of a complement and of an intersection.
pub proof fn lemma_not_and(x: u32, y: u32, k: int)
    requires
        0 <= k < 32,
    ensures
        bit(!x, k) == !bit(x, k),
        bit(x & y, k) == (bit(x, k) && bit(y, k)),
{
    let j = k as u32;
    assert(j < 32 ==> (((!x) >> j) & 1 == 1) == ((x >> j) & 1 != 1)) by (bit_vector);
    assert(j < 32 ==> (((x & y) >> j) & 1 == 1) == ((x >> j) & 1 == 1 && (y >> j) & 1 == 1))
        by (bit_vector);
}

/// No bit of 0 is set.
pub proof fn lemma_zero(k: int)
    requires
        0 <= k < 32,
    ensures
        !bit(0u32, k),
{
    let j = k as u32;
    assert(j < 32 ==> (0u32 >> j) & 1 != 1) by (bit_vector);
}

/// A mask without bits is 0.
pub proof fn lemma_no_bits(x: u32)
    requires
        forall|k: int| 0 <= k < 32 ==> !#[trigger] bit(x, k),
    ensures
        x == 0,
{
    lemma_ones(x);
    lemma_hits_tail(|k: int| bit(x, k), 0, 32);
    lemma_no_ones(x);
}

proof fn lemma_no_ones(x: u32)
    ensures
        ones(x) >= 0,
        ones(x) == 0 ==> x == 0,
    decreases x,
{
    if x != 0 {
        lemma_no_ones(x / 2);
    }
}

} // verus!
