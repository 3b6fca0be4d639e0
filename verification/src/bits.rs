//! Bitmask monomials: a `u64` mask stands for the set of generator indices
//! whose bits are set.

use vstd::prelude::*;

verus! {

/// Bit `i` of `mask` is set (only the 64 positions of a `u64` exist).
pub open spec fn has_bit(mask: u64, i: nat) -> bool {
    i < 64 && (mask & (1u64 << (i as u64))) != 0u64
}

/// The number of set bits of `mask` at positions below `n`.
pub open spec fn count_below(mask: u64, n: nat) -> nat
    decreases n,
{
    if n == 0 {
        0
    } else {
        count_below(mask, (n - 1) as nat) + (if has_bit(mask, (n - 1) as nat) {
            1nat
        } else {
            0nat
        })
    }
}

/// The number of set bits of `mask` (its degree as a monomial).
pub open spec fn popcount(mask: u64) -> nat {
    count_below(mask, 64)
}

/// Bits of `a | b` are the union, bits of `a & b` the intersection.
pub proof fn lemma_bit_or_and(a: u64, b: u64, i: nat)
    requires
        i < 64,
    ensures
        has_bit(a | b, i) == (has_bit(a, i) || has_bit(b, i)),
        has_bit(a & b, i) == (has_bit(a, i) && has_bit(b, i)),
        has_bit(a ^ b, i) == (has_bit(a, i) != has_bit(b, i)),
{
    let s = i as u64;
    assert(((a | b) & (1u64 << s)) != 0u64 <==> ((a & (1u64 << s)) != 0u64 || (b & (1u64
        << s)) != 0u64)) by (bit_vector)
        requires
            s < 64,
    ;
    assert(((a & b) & (1u64 << s)) != 0u64 <==> ((a & (1u64 << s)) != 0u64 && (b & (1u64
        << s)) != 0u64)) by (bit_vector)
        requires
            s < 64,
    ;
    assert(((a ^ b) & (1u64 << s)) != 0u64 <==> ((a & (1u64 << s)) != 0u64 != ((b & (1u64
        << s)) != 0u64))) by (bit_vector)
        requires
            s < 64,
    ;
}

/// Two masks whose intersection is empty share no bit.
pub proof fn lemma_disjoint_bits(a: u64, b: u64)
    requires
        a & b == 0,
    ensures
        forall|i: nat| !(#[trigger] has_bit(a, i) && has_bit(b, i)),
{
    assert forall|i: nat| !(#[trigger] has_bit(a, i) && has_bit(b, i)) by {
        if i < 64 {
            lemma_bit_or_and(a, b, i);
            let s = i as u64;
            assert((0u64 & (1u64 << s)) == 0u64) by (bit_vector);
        }
    }
}

/// `1 << v` has exactly bit `v`.
pub proof fn lemma_single_bit(v: nat, i: nat)
    requires
        v < 64,
        i < 64,
    ensures
        has_bit(1u64 << (v as u64), i) == (i == v),
{
    let s = v as u64;
    let t = i as u64;
    assert(((1u64 << s) & (1u64 << t)) != 0u64 <==> s == t) by (bit_vector)
        requires
            s < 64,
            t < 64,
    ;
}

/// `1 << v` has one bit, at `v`.
pub proof fn lemma_single_bit_count(v: nat, m: nat)
    requires
        v < 64,
    ensures
        count_below(1u64 << (v as u64), m) == (if v < m {
            1nat
        } else {
            0nat
        }),
    decreases m,
{
    if m > 0 {
        lemma_single_bit_count(v, (m - 1) as nat);
        if m - 1 < 64 {
            lemma_single_bit(v, (m - 1) as nat);
        }
    }
}

/// Counting set bits is monotone in the bound and never exceeds it.
pub proof fn lemma_count_below_bounds(mask: u64, n: nat)
    ensures
        count_below(mask, n) <= n,
    decreases n,
{
    if n > 0 {
        lemma_count_below_bounds(mask, (n - 1) as nat);
    }
}

/// Positions at or above 64 hold no bit.
pub proof fn lemma_count_below_saturates(mask: u64, n: nat)
    requires
        n >= 64,
    ensures
        count_below(mask, n) == popcount(mask),
    decreases n,
{
    if n > 64 {
        lemma_count_below_saturates(mask, (n - 1) as nat);
    }
}

/// The set bits of the union of two disjoint masks are counted separately.
pub proof fn lemma_count_below_disjoint_union(a: u64, b: u64, n: nat)
    requires
        a & b == 0,
    ensures
        count_below(a | b, n) == count_below(a, n) + count_below(b, n),
    decreases n,
{
    if n > 0 {
        lemma_count_below_disjoint_union(a, b, (n - 1) as nat);
        lemma_disjoint_bits(a, b);
        if n - 1 < 64 {
            lemma_bit_or_and(a, b, (n - 1) as nat);
        }
    }
}

/// Masking with the low `bit` bits keeps exactly the bits below `bit`.
proof fn lemma_low_mask_bits(mask: u64, bit: u64, i: nat)
    requires
        bit < 64,
        i < 64,
    ensures
        has_bit(mask & ((1u64 << bit) - 1) as u64, i) == (i < bit && has_bit(mask, i)),
{
    let s = i as u64;
    assert(((mask & (((1u64 << bit) - 1u64) as u64)) & (1u64 << s)) != 0u64 <==> (s < bit && (mask & (
    1u64 << s)) != 0u64)) by (bit_vector)
        requires
            bit < 64,
            s < 64,
    ;
    assert(1u64 << bit >= 1u64) by (bit_vector)
        requires
            bit < 64,
    ;
}

proof fn lemma_count_low_mask(mask: u64, bit: u64, k: nat)
    requires
        bit < 64,
        k <= 64,
    ensures
        count_below(mask & ((1u64 << bit) - 1) as u64, k) == count_below(
            mask,
            if k < bit {
                k
            } else {
                bit as nat
            },
        ),
    decreases k,
{
    assert(1u64 << bit >= 1u64) by (bit_vector)
        requires
            bit < 64,
    ;
    if k > 0 {
        lemma_count_low_mask(mask, bit, (k - 1) as nat);
        lemma_low_mask_bits(mask, bit, (k - 1) as nat);
    }
}

proof fn lemma_no_bits_below_zero(m: u64, k: nat)
    requires
        k < 64,
        forall|i: nat| i < k ==> !#[trigger] has_bit(m, i),
    ensures
        m & low_mask(k) == 0,
    decreases k,
{
    let t = k as u64;
    if k == 0 {
        assert(m & (((1u64 << 0u64) - 1u64) as u64) == 0u64) by (bit_vector);
    } else {
        lemma_no_bits_below_zero(m, (k - 1) as nat);
        assert(!has_bit(m, (k - 1) as nat));
        let u = (k - 1) as u64;
        assert((m & (((1u64 << u) - 1u64) as u64) == 0u64 && (m & (1u64 << u)) == 0u64) ==> m & (((
        1u64 << t) - 1u64) as u64) == 0u64) by (bit_vector)
            requires
                u < 63,
                t == u + 1,
        ;
    }
}

/// A mask without set bits is zero.
pub proof fn lemma_no_bits_zero(m: u64)
    requires
        forall|i: nat| i < 64 ==> !#[trigger] has_bit(m, i),
    ensures
        m == 0,
{
    lemma_no_bits_below_zero(m, 63);
    assert(!has_bit(m, 63));
    assert((m & (((1u64 << 63u64) - 1u64) as u64) == 0u64 && (m & (1u64 << 63u64)) == 0u64)
        ==> m == 0u64) by (bit_vector);
}

/// Masks with the same bits are equal.
pub proof fn lemma_bits_extensional(a: u64, b: u64)
    requires
        forall|i: nat| i < 64 ==> #[trigger] has_bit(a, i) == has_bit(b, i),
    ensures
        a == b,
{
    assert forall|i: nat| i < 64 implies !#[trigger] has_bit(a ^ b, i) by {
        lemma_bit_or_and(a, b, i);
        assert(has_bit(a, i) == has_bit(b, i));
    }
    lemma_no_bits_zero(a ^ b);
    assert(a ^ b == 0u64 ==> a == b) by (bit_vector);
}

/// The mask of the `n` lowest bits, 2^n - 1 (for n < 64).
pub open spec fn low_mask(n: nat) -> u64 {
    ((1u64 << (n as u64)) - 1) as u64
}

/// The low mask has exactly the bits below `n`, and n of them.
pub proof fn lemma_low_mask_bits_exact(n: nat)
    requires
        n < 64,
    ensures
        forall|i: nat| #[trigger] has_bit(low_mask(n), i) == (i < n),
        popcount(low_mask(n)) == n,
{
    let s = n as u64;
    assert(1u64 << s >= 1u64) by (bit_vector)
        requires
            s < 64,
    ;
    assert forall|i: nat| #[trigger] has_bit(low_mask(n), i) == (i < n) by {
        if i < 64 {
            let t = i as u64;
            assert(((((1u64 << s) - 1u64) as u64) & (1u64 << t)) != 0u64 <==> t < s) by (bit_vector)
                requires
                    s < 64,
                    t < 64,
            ;
        }
    }
    lemma_count_all_below(low_mask(n), n, 64);
}

proof fn lemma_count_all_below(m: u64, n: nat, k: nat)
    requires
        n <= 64,
        k <= 64,
        forall|i: nat| #[trigger] has_bit(m, i) == (i < n),
    ensures
        count_below(m, k) == if k < n {
            k
        } else {
            n
        },
    decreases k,
{
    if k > 0 {
        lemma_count_all_below(m, n, (k - 1) as nat);
        assert(has_bit(m, (k - 1) as nat) == (k - 1 < n));
    }
}

/// The mask of the `n` lowest bits.
pub fn low_bits(n: u64) -> (m: u64)
    requires
        n < 64,
    ensures
        m == low_mask(n as nat),
{
    assert(1u64 << n >= 1u64) by (bit_vector)
        requires
            n < 64,
    ;
    (1u64 << n) - 1
}

/// Whether bit `i` of `mask` is set.
pub fn bit_is_set(mask: u64, i: u64) -> (r: bool)
    requires
        i < 64,
    ensures
        r == has_bit(mask, i as nat),
{
    mask & (1u64 << i) != 0
}

/// The number of set bits of `x`.
pub fn count_ones(x: u64) -> (c: u32)
    ensures
        c == popcount(x),
{
    let mut c: u32 = 0;
    let mut i: u64 = 0;
    while i < 64
        invariant
            i <= 64,
            c == count_below(x, i as nat),
        decreases 64 - i,
    {
        proof {
            lemma_count_below_bounds(x, i as nat);
        }
        if bit_is_set(x, i) {
            c = c + 1;
        }
        i = i + 1;
    }
    c
}

/// The number of set bits of `mask` strictly below position `bit`
/// (all of them when `bit` is 64 or more).
pub fn count_bits_below(mask: u64, bit: u64) -> (c: u32)
    ensures
        c == count_below(mask, bit as nat),
{
    if bit >= 64 {
        proof {
            lemma_count_below_saturates(mask, bit as nat);
        }
        count_ones(mask)
    } else {
        assert(1u64 << bit >= 1u64) by (bit_vector)
            requires
                bit < 64,
        ;
        let below_mask = (1u64 << bit) - 1;
        proof {
            lemma_count_low_mask(mask, bit, 64);
        }
        count_ones(mask & below_mask)
    }
}

} // verus!
