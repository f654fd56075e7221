//! 128-bit sets of byte values: membership, counting, and the shift trick
//! that finds the rank of a member.

use vstd::prelude::*;

verus! {

/// Whether bit `i` of `x` is set.
pub open spec fn bit(x: u128, i: int) -> bool {
    0 <= i < 128 && (x >> (i as u128)) & 1 == 1
}

/// The number of set bits of `x` below position `n`.
pub open spec fn ones_below(x: u128, n: int) -> int
    decreases n,
{
    if n <= 0 {
        0
    } else {
        ones_below(x, n - 1) + if bit(x, n - 1) {
            1int
        } else {
            0int
        }
    }
}

/// The number of set bits of `x`.
pub open spec fn popcount(x: u128) -> int {
    ones_below(x, 128)
}

/// The number of set bits of `x`, counted bit by bit over all 128 positions.
pub(crate) fn count_ones(x: u128) -> (r: u32)
    ensures
        r as int == popcount(x),
{
    let mut count: u32 = 0;
    let mut i: u128 = 0;
    while i < 128
        invariant
            i <= 128,
            count as int == ones_below(x, i as int),
            count <= i,
        decreases 128 - i,
    {
        if (x >> i) & 1 == 1 {
            count = count + 1;
        }
        assert(ones_below(x, i + 1) == ones_below(x, i as int) + if bit(x, i as int) {
            1int
        } else {
            0int
        });
        assert((i as int) as u128 == i);
        i = i + 1;
    }
    count
}

/// The count of members below `n` lies between 0 and `n`.
pub proof fn lemma_ones_below_bounds(x: u128, n: int)
    ensures
        0 <= ones_below(x, n),
        n >= 0 ==> ones_below(x, n) <= n,
    decreases n,
{
    if n > 0 {
        lemma_ones_below_bounds(x, n - 1);
    }
}

/// The count of members below a position grows with the position.
pub proof fn lemma_ones_below_monotone(x: u128, a: int, b: int)
    requires
        a <= b,
    ensures
        ones_below(x, a) <= ones_below(x, b),
    decreases b - a,
{
    if a < b {
        lemma_ones_below_monotone(x, a, b - 1);
    }
}

/// A set bit at `c` leaves room for itself below the total count.
pub proof fn lemma_rank_fits(x: u128, c: int)
    requires
        bit(x, c),
    ensures
        ones_below(x, c) + 1 <= popcount(x),
{
    lemma_ones_below_monotone(x, c + 1, 128);
}

proof fn lemma_shl_bit_u128(t: u128, s: u128, k: u128)
    by (bit_vector)
    requires
        s < 128,
        k < 128,
    ensures
        ((t << s) >> k) & 1 == if k >= s {
            (t >> ((k - s) as u128)) & 1
        } else {
            0
        },
{
}

proof fn lemma_bit_is_zero_or_one(t: u128, k: u128)
    by (bit_vector)
    ensures
        (t >> k) & 1 == 0 || (t >> k) & 1 == 1,
{
}

/// The bits of `t << s` are those of `t`, moved up by `s`.
pub proof fn lemma_shl_bit(t: u128, s: int, k: int)
    requires
        0 <= s < 128,
        0 <= k < 128,
    ensures
        bit(t << (s as u128), k) == (k >= s && bit(t, k - s)),
{
    lemma_shl_bit_u128(t, s as u128, k as u128);
    if k >= s {
        assert((k as u128 - s as u128) as u128 == (k - s) as u128);
    }
}

proof fn lemma_ones_below_shl_low(t: u128, s: int, m: int)
    requires
        0 <= s < 128,
        m <= s,
    ensures
        ones_below(t << (s as u128), m) == 0,
    decreases m,
{
    if m > 0 {
        lemma_ones_below_shl_low(t, s, m - 1);
        lemma_shl_bit(t, s, m - 1);
    }
}

proof fn lemma_ones_below_shl(t: u128, s: int, j: int)
    requires
        0 <= s < 128,
        0 <= j <= 128 - s,
    ensures
        ones_below(t << (s as u128), s + j) == ones_below(t, j),
    decreases j,
{
    if j == 0 {
        lemma_ones_below_shl_low(t, s, s);
    } else {
        lemma_ones_below_shl(t, s, j - 1);
        lemma_shl_bit(t, s, s + j - 1);
    }
}

proof fn lemma_top_bit_u128(t: u128, c: u128)
    by (bit_vector)
    requires
        c < 128,
    ensures
        ((t << ((127 - c) as u128)) & (1u128 << 127u128) == (1u128 << 127u128)) == ((t >> c) & 1 == 1),
{
}

/// Shifting byte `c`'s bit to the top: the top bit tells whether `c` is in
/// the set, and the count of the shifted value is the number of members up
/// to and including `c`.
pub proof fn lemma_shift_to_top(t: u128, c: u8)
    requires
        c < 128,
    ensures
        ((t << ((127 - c) as u128)) & (1u128 << 127u128) == (1u128 << 127u128)) == bit(t, c as int),
        popcount(t << ((127 - c) as u128)) == ones_below(t, c as int + 1),
{
    lemma_top_bit_u128(t, c as u128);
    assert((c as int) as u128 == c as u128);
    lemma_ones_below_shl(t, 127 - c, c + 1);
}

proof fn lemma_or_bit_u128(t: u128, c: u128, k: u128)
    by (bit_vector)
    requires
        c < 128,
        k < 128,
    ensures
        ((t | (1u128 << c)) >> k) & 1 == if k == c {
            1
        } else {
            (t >> k) & 1
        },
{
}

/// Adding byte `c` to the set `t` sets bit `c` and keeps the others.
pub proof fn lemma_or_bit(t: u128, c: int, k: int)
    requires
        0 <= c < 128,
    ensures
        bit(t | (1u128 << (c as u128)), k) == (k == c || bit(t, k)),
{
    if 0 <= k < 128 {
        lemma_or_bit_u128(t, c as u128, k as u128);
        lemma_bit_is_zero_or_one(t, k as u128);
    }
}

proof fn lemma_zero_bits_u128(k: u128)
    by (bit_vector)
    ensures
        (0u128 >> k) & 1 == 0,
{
}

/// The empty set has no members.
pub proof fn lemma_zero_bits(k: int)
    ensures
        !bit(0u128, k),
{
    if 0 <= k < 128 {
        lemma_zero_bits_u128(k as u128);
    }
}

/// Adding member `c` leaves the count below `k <= c` alone, and raises the
/// count below any `k > c` by one when `c` was not a member.
pub proof fn lemma_or_counts(t: u128, c: int, k: int)
    requires
        0 <= c < 128,
    ensures
        k <= c ==> ones_below(t | (1u128 << (c as u128)), k) == ones_below(t, k),
        k > c && !bit(t, c) ==> ones_below(t | (1u128 << (c as u128)), k) == ones_below(t, k) + 1,
    decreases k,
{
    if k > 0 {
        lemma_or_counts(t, c, k - 1);
        lemma_or_bit(t, c, k - 1);
    }
}

/// With no member at `c` or above, the count below `c` is the whole count.
pub proof fn lemma_count_below_all(t: u128, c: int, k: int)
    requires
        0 <= c <= k <= 128,
        forall|j: int| c <= j < 128 ==> !bit(t, j),
    ensures
        ones_below(t, k) == ones_below(t, c),
    decreases k - c,
{
    if k > c {
        lemma_count_below_all(t, c, k - 1);
    }
}

proof fn lemma_shl_one_u128(c: u8)
    by (bit_vector)
    requires
        c < 128,
    ensures
        1u128 << c == 1u128 << (c as u128),
{
}

/// `1 << c` for a byte `c` is `1 << (c as u128)`.
pub proof fn lemma_shl_one(c: u8)
    requires
        c < 128,
    ensures
        1u128 << c == 1u128 << ((c as int) as u128),
{
    lemma_shl_one_u128(c);
}

proof fn lemma_low_bits_start(t1: u128, t2: u128)
    by (bit_vector)
    ensures
        t1 & (((1u128 << 0u128) - 1) as u128) == t2 & (((1u128 << 0u128) - 1) as u128),
{
}

proof fn lemma_low_bits_step(t1: u128, t2: u128, k: u128)
    by (bit_vector)
    requires
        k < 127,
        t1 & (((1u128 << k) - 1) as u128) == t2 & (((1u128 << k) - 1) as u128),
        (t1 >> k) & 1 == (t2 >> k) & 1,
    ensures
        t1 & (((1u128 << ((k + 1) as u128)) - 1) as u128) == t2 & (((1u128 << ((k + 1) as u128)) - 1) as u128),
{
}

proof fn lemma_low_bits_top(t1: u128, t2: u128)
    by (bit_vector)
    requires
        t1 & (((1u128 << 127u128) - 1) as u128) == t2 & (((1u128 << 127u128) - 1) as u128),
        (t1 >> 127u128) & 1 == (t2 >> 127u128) & 1,
    ensures
        t1 == t2,
{
}

proof fn lemma_low_bits(t1: u128, t2: u128, k: int)
    requires
        0 <= k <= 127,
        forall|i: int| 0 <= i < 128 ==> bit(t1, i) == bit(t2, i),
    ensures
        t1 & (((1u128 << (k as u128)) - 1) as u128) == t2 & (((1u128 << (k as u128)) - 1) as u128),
    decreases k,
{
    if k == 0 {
        lemma_low_bits_start(t1, t2);
    } else {
        lemma_low_bits(t1, t2, k - 1);
        lemma_bit_is_zero_or_one(t1, (k - 1) as u128);
        lemma_bit_is_zero_or_one(t2, (k - 1) as u128);
        assert(bit(t1, k - 1) == bit(t2, k - 1));
        lemma_low_bits_step(t1, t2, (k - 1) as u128);
        assert(((k - 1) as u128 + 1) as u128 == k as u128);
    }
}

/// Two sets with the same members are the same value.
pub proof fn lemma_bits_ext(t1: u128, t2: u128)
    requires
        forall|i: int| 0 <= i < 128 ==> bit(t1, i) == bit(t2, i),
    ensures
        t1 == t2,
{
    lemma_low_bits(t1, t2, 127);
    lemma_bit_is_zero_or_one(t1, 127);
    lemma_bit_is_zero_or_one(t2, 127);
    assert(bit(t1, 127) == bit(t2, 127));
    lemma_low_bits_top(t1, t2);
}

} // verus!
