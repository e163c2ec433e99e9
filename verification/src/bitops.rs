//! Single-bit view of `u64` words, together with the bit-level lemmas the
//! board representation is proved against, and a verified population count.
use vstd::prelude::*;

verus! {

/// True iff bit `i` of `m` is set. Bits at index 64 and above do not exist.
pub open spec fn bit(m: u64, i: u64) -> bool {
    i < 64 && ((m >> i) & 1) == 1
}

/// How the boolean operators on words act on individual bits.
pub proof fn lemma_bit_ops()
    by (bit_vector)
    ensures
        forall|a: u64, b: u64, i: u64| #[trigger] bit(a & b, i) <==> bit(a, i) && bit(b, i),
        forall|a: u64, b: u64, i: u64| #[trigger] bit(a | b, i) <==> bit(a, i) || bit(b, i),
        forall|a: u64, b: u64, i: u64| #[trigger] bit(a ^ b, i) <==> (bit(a, i) != bit(b, i)),
        forall|a: u64, i: u64| #[trigger] bit(!a, i) <==> (i < 64 && !bit(a, i)),
        forall|i: u64| !bit(0u64, i),
        forall|a: u64, i: u64| bit(a, i) ==> a != 0,
        forall|x: u64, i: u64| ((x >> i) & 1) == 0 || ((x >> i) & 1) == 1,
{
}

/// How the shift operators act on individual bits.
pub proof fn lemma_shift_bits()
    by (bit_vector)
    ensures
        forall|x: u64, k: u64, i: u64| k < 64 ==> (#[trigger] bit(x << k, i) <==> (k <= i < 64
            && bit(x, (i - k) as u64))),
        forall|x: u64, k: u64, i: u64| k < 64 ==> (#[trigger] bit(x >> k, i) <==> (i + k < 64
            && bit(x, (i + k) as u64))),
        forall|k: u64, i: u64| k < 64 ==> (#[trigger] bit(1u64 << k, i) <==> i == k),
{
}

/// The number of set bits of `x` below index `n`.
pub open spec fn count_bits_upto(x: u64, n: u64) -> nat
    decreases n,
{
    if n == 0 {
        0nat
    } else {
        count_bits_upto(x, (n - 1) as u64) + if bit(x, (n - 1) as u64) {
            1nat
        } else {
            0nat
        }
    }
}

/// The number of set bits of `x`.
pub open spec fn count_bits(x: u64) -> nat {
    count_bits_upto(x, 64)
}

/// The number of set bits of a word, counted bit by bit.
pub fn popcount(x: u64) -> (r: u32)
    ensures
        r == count_bits(x),
        r <= 64,
{
    let mut c: u32 = 0;
    let mut i: u64 = 0;
    proof {
        lemma_bit_ops();
    }
    while i < 64
        invariant
            i <= 64,
            c == count_bits_upto(x, i),
            c <= i,
            forall|y: u64, j: u64| ((y >> j) & 1) == 0 || ((y >> j) & 1) == 1,
        decreases 64 - i,
    {
        c = c + ((x >> i) & 1) as u32;
        i = i + 1;
    }
    c
}

/// Counting below a larger index can only see more set bits.
pub proof fn lemma_count_mono(x: u64, n: u64, m: u64)
    requires
        n <= m <= 64,
    ensures
        count_bits_upto(x, n) <= count_bits_upto(x, m),
    decreases m,
{
    if n < m {
        lemma_count_mono(x, n, (m - 1) as u64);
    }
}

/// A set bit below `n` contributes to the count below `n`.
pub proof fn lemma_bit_counts(x: u64, i: u64, n: u64)
    requires
        i < n <= 64,
        bit(x, i),
    ensures
        count_bits_upto(x, n) >= count_bits_upto(x, i) + 1,
    decreases n,
{
    if i + 1 < n {
        lemma_bit_counts(x, i, (n - 1) as u64);
    }
}

/// Two distinct set bits make the count at least two.
pub proof fn lemma_two_bits_count(x: u64, i: u64, j: u64)
    requires
        i < j,
        bit(x, i),
        bit(x, j),
    ensures
        count_bits(x) >= 2,
{
    lemma_bit_counts(x, i, (i + 1) as u64);
    lemma_count_mono(x, (i + 1) as u64, j);
    lemma_bit_counts(x, j, 64);
}

/// A nonzero word has a set bit.
pub proof fn lemma_nonzero_bit(x: u64) -> (i: u64)
    requires
        x != 0,
    ensures
        bit(x, i),
    decreases x,
{
    if (x & 1) == 1 {
        assert(bit(x, 0)) by (bit_vector)
            requires
                (x & 1) == 1,
        ;
        0
    } else {
        assert(x >> 1 != 0 && x >> 1 < x) by (bit_vector)
            requires
                x != 0 && (x & 1) != 1,
        ;
        let j = lemma_nonzero_bit(x >> 1);
        assert(bit(x, (j + 1) as u64)) by (bit_vector)
            requires
                bit(x >> 1, j),
        ;
        (j + 1) as u64
    }
}

/// A count of at most one means all set bits coincide.
pub proof fn lemma_count_le1_unique(x: u64, i: u64, j: u64)
    requires
        count_bits(x) <= 1,
        bit(x, i),
        bit(x, j),
    ensures
        i == j,
{
    if i < j {
        lemma_two_bits_count(x, i, j);
    } else if j < i {
        lemma_two_bits_count(x, j, i);
    }
}

/// A count of at least two yields two distinct set bits.
pub proof fn lemma_count_ge2_two_bits(x: u64) -> (r: (u64, u64))
    requires
        count_bits(x) >= 2,
    ensures
        r.0 < r.1,
        bit(x, r.0),
        bit(x, r.1),
{
    let j = lemma_last_bit(x, 64, 2);
    let i = lemma_last_bit(x, j, 1);
    (i, j)
}

/// A count of at least `k >= 1` below `n` yields a set bit below `n` with
/// at least `k - 1` set bits below it.
proof fn lemma_last_bit(x: u64, n: u64, k: int) -> (i: u64)
    requires
        n <= 64,
        count_bits_upto(x, n) >= k >= 1,
    ensures
        i < n,
        bit(x, i),
        count_bits_upto(x, i) >= k - 1,
    decreases n,
{
    if bit(x, (n - 1) as u64) && count_bits_upto(x, (n - 1) as u64) >= k - 1 && !(
    count_bits_upto(x, (n - 1) as u64) >= k) {
        (n - 1) as u64
    } else {
        lemma_last_bit(x, (n - 1) as u64, k)
    }
}

} // verus!
