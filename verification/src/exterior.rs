//! Exterior algebra Λ(V) on n odd generators, with monomials as bitmasks.

use vstd::prelude::*;
use vstd::arithmetic::power2::pow2;
use crate::bits::{
    count_below, has_bit, lemma_bit_or_and, lemma_count_below_disjoint_union, lemma_disjoint_bits,
    lemma_single_bit, popcount,
};
use crate::graded::{exchange_sign, Parity};
use crate::labels::{index_label, labels_or_default};

verus! {

/// The binomial coefficient C(n, k), by Pascal's rule.
pub open spec fn binomial(n: nat, k: nat) -> nat
    decreases n,
{
    if k == 0 {
        1
    } else if n == 0 {
        0
    } else {
        binomial((n - 1) as nat, (k - 1) as nat) + binomial((n - 1) as nat, k)
    }
}

/// C(n, k) = 0 when k > n.
pub proof fn lemma_binomial_zero(n: nat, k: nat)
    requires
        k > n,
    ensures
        binomial(n, k) == 0,
    decreases n,
{
    if n > 0 {
        lemma_binomial_zero((n - 1) as nat, (k - 1) as nat);
        lemma_binomial_zero((n - 1) as nat, k);
    }
}

/// C(n, n) = 1.
pub proof fn lemma_binomial_full(n: nat)
    ensures
        binomial(n, n) == 1,
    decreases n,
{
    if n > 0 {
        lemma_binomial_full((n - 1) as nat);
        lemma_binomial_zero((n - 1) as nat, n);
    }
}

/// Absorption: (k+1)·C(n+1, k+1) = (n+1)·C(n, k).
pub proof fn lemma_binomial_absorption(n: nat, k: nat)
    ensures
        (k + 1) * binomial(n + 1, k + 1) == (n + 1) * binomial(n, k),
    decreases n,
{
    if n == 0 {
        lemma_binomial_zero(0, k + 1);
        if k > 0 {
            lemma_binomial_zero(0, k);
        }
        let c = binomial(1, k + 1);
        let d = binomial(0, k);
        assert(c == d);
        assert((k + 1) * c == (n + 1) * d) by (nonlinear_arith)
            requires
                c == d,
                n == 0,
                k > 0 ==> d == 0,
                k == 0 ==> d == 1,
        ;
    } else {
        let m = (n - 1) as nat;
        // C(n+1, k+1) = C(n, k) + C(n, k+1)
        assert(binomial(n + 1, k + 1) == binomial(n, k) + binomial(n, k + 1));
        // (k+1)·C(n, k+1) = n·C(n-1, k)
        lemma_binomial_absorption(m, k);
        if k == 0 {
            let c1 = binomial(n, 1);
            assert(m + 1 == n);
            assert(1 * binomial(m + 1, 1) == (m + 1) * binomial(m, 0));
            assert(binomial(m, 0) == 1);
            assert(c1 == n) by (nonlinear_arith)
                requires
                    1 * binomial(m + 1, 1) == (m + 1) * binomial(m, 0),
                    binomial(m, 0) == 1,
                    m + 1 == n,
                    c1 == binomial(n, 1),
            ;
            assert(binomial(n + 1, 1) == 1 + c1);
            assert((k + 1) * binomial(n + 1, k + 1) == (n + 1) * binomial(n, k)) by (
            nonlinear_arith)
                requires
                    k == 0,
                    binomial(n + 1, k + 1) == n + 1,
                    binomial(n, k) == 1,
            ;
        } else {
            let j = (k - 1) as nat;
            // k·C(n, k) = n·C(n-1, k-1)
            lemma_binomial_absorption(m, j);
            assert(binomial(n, k) == binomial(m, j) + binomial(m, k));
            let a = binomial(n, k);
            let b = binomial(n, k + 1);
            let x = binomial(m, j);
            let y = binomial(m, k);
            let c = binomial(n + 1, k + 1);
            assert((k + 1) * c == (n + 1) * a) by (nonlinear_arith)
                requires
                    (k + 1) * b == n * y,
                    k * a == n * x,
                    a == x + y,
                    c == a + b,
            ;
        }
    }
}

/// Successive binomials: C(n, i+1)·(i+1) = C(n, i)·(n - i) for i < n.
pub proof fn lemma_binomial_step(n: nat, i: nat)
    requires
        i < n,
    ensures
        binomial(n, i + 1) * (i + 1) == binomial(n, i) * (n - i),
{
    let m = (n - 1) as nat;
    lemma_binomial_absorption(m, i);
    if i == 0 {
        assert(m + 1 == n);
        assert(1 * binomial(m + 1, 1) == (m + 1) * binomial(m, 0));
        assert(binomial(m, 0) == 1);
        assert(binomial(n, 0) == 1);
        assert(binomial(n, 1) == n) by (nonlinear_arith)
            requires
                1 * binomial(m + 1, 1) == (m + 1) * binomial(m, 0),
                binomial(m, 0) == 1,
                m + 1 == n,
        ;
    } else {
        let j = (i - 1) as nat;
        lemma_binomial_absorption(m, j);
        assert(binomial(n, i) == binomial(m, j) + binomial(m, i));
        let a = binomial(n, i);
        let x = binomial(m, j);
        let y = binomial(m, i);
        let c = binomial(n, i + 1);
        assert(c * (i + 1) == a * (n - i)) by (nonlinear_arith)
            requires
                (i + 1) * c == n * y,
                i * a == n * x,
                a == x + y,
                i < n,
        ;
    }
}

/// Symmetry: C(n, k) = C(n, n - k) for k <= n.
pub proof fn lemma_binomial_symmetric(n: nat, k: nat)
    requires
        k <= n,
    ensures
        binomial(n, k) == binomial(n, (n - k) as nat),
    decreases n,
{
    if k == 0 {
        lemma_binomial_full(n);
    } else if k == n {
        lemma_binomial_full(n);
    } else {
        let m = (n - 1) as nat;
        lemma_binomial_symmetric(m, (k - 1) as nat);
        lemma_binomial_symmetric(m, k);
        assert(binomial(n, (n - k) as nat) == binomial(m, (n - k - 1) as nat) + binomial(
            m,
            (n - k) as nat,
        ));
    }
}

/// C(n, 0) + C(n, 1) + ... + C(n, m - 1).
pub open spec fn binomial_sum(n: nat, m: nat) -> nat
    decreases m,
{
    if m == 0 {
        0
    } else {
        binomial_sum(n, (m - 1) as nat) + binomial(n, (m - 1) as nat)
    }
}

proof fn lemma_binomial_sum_pascal(n: nat, m: nat)
    ensures
        binomial_sum(n + 1, m + 1) == binomial_sum(n, m + 1) + binomial_sum(n, m),
    decreases m,
{
    if m > 0 {
        let j = (m - 1) as nat;
        lemma_binomial_sum_pascal(n, j);
        assert(binomial(n + 1, m) == binomial(n, j) + binomial(n, m));
        assert(binomial_sum(n + 1, m + 1) == binomial_sum(n + 1, m) + binomial(n + 1, m));
        assert(binomial_sum(n, m + 1) == binomial_sum(n, m) + binomial(n, m));
        assert(binomial_sum(n, m) == binomial_sum(n, j) + binomial(n, j));
    } else {
        assert(binomial_sum(n + 1, 1) == binomial_sum(n + 1, 0) + binomial(n + 1, 0));
        assert(binomial_sum(n, 1) == binomial_sum(n, 0) + binomial(n, 0));
    }
}

/// The exterior algebra is the direct sum of its k-form subspaces:
/// C(n, 0) + C(n, 1) + ... + C(n, n) = 2^n, so the form dimensions add up to
/// the dimension of Λ(V).
pub proof fn lemma_form_dimensions_sum(n: nat)
    ensures
        binomial_sum(n, n + 1) == pow2(n),
    decreases n,
{
    if n == 0 {
        vstd::arithmetic::power2::lemma2_to64();
        assert(binomial_sum(0, 1) == binomial_sum(0, 0) + binomial(0, 0));
    } else {
        let m = (n - 1) as nat;
        lemma_form_dimensions_sum(m);
        lemma_binomial_sum_pascal(m, n);
        lemma_binomial_zero(m, n);
        vstd::arithmetic::power2::lemma_pow2_unfold(n);
        assert(binomial_sum(m, n + 1) == binomial_sum(m, n) + binomial(m, n));
        assert(m + 1 == n);
        assert(binomial_sum(n, n + 1) == binomial_sum(m, n + 1) + binomial_sum(m, n));
    }
}

/// The loop of `form_dimension` stays within `usize`: every intermediate
/// product C(n, i)·(n - i), for i below min(k, n - k), fits.
pub open spec fn form_dimension_fits(n: nat, k: nat) -> bool {
    k <= n ==> forall|i: nat|
        i < (if k <= n - k {
            k
        } else {
            (n - k) as nat
        }) ==> #[trigger] binomial(n, i) * (n - i) <= usize::MAX
}

proof fn lemma_binomial_sum_monotone(n: nat, m1: nat, m2: nat)
    requires
        m1 <= m2,
    ensures
        binomial_sum(n, m1) <= binomial_sum(n, m2),
    decreases m2,
{
    if m2 > m1 {
        lemma_binomial_sum_monotone(n, m1, (m2 - 1) as nat);
    }
}

/// Every binomial coefficient C(n, j) with n >= 1 is at most 2^(n-1).
proof fn lemma_binomial_half_bound(n: nat, j: nat)
    requires
        n >= 1,
    ensures
        binomial(n, j) <= pow2((n - 1) as nat),
{
    let m = (n - 1) as nat;
    lemma_form_dimensions_sum(m);
    vstd::arithmetic::power2::lemma_pow2_pos(m);
    if j == 0 {
    } else if j > n {
        lemma_binomial_zero(n, j);
    } else if j == n {
        lemma_binomial_full(n);
    } else {
        let a = (j - 1) as nat;
        // C(n, j) = C(m, j-1) + C(m, j), two distinct terms of the row sum of m
        assert(binomial(n, j) == binomial(m, a) + binomial(m, j));
        lemma_binomial_sum_monotone(m, a + 1, j);
        lemma_binomial_sum_monotone(m, j + 1, m + 1);
        assert(binomial_sum(m, a + 1) == binomial_sum(m, a) + binomial(m, a));
        assert(binomial_sum(m, j + 1) == binomial_sum(m, j) + binomial(m, j));
    }
}

/// The k-form dimensions of Λ(V) on n generators add up to 2^n, are
/// symmetric (C(n, k) = C(n, n - k)) and vanish above n.
pub proof fn lemma_form_dimension_laws(n: nat, k: nat)
    ensures
        binomial_sum(n, n + 1) == pow2(n),
        k <= n ==> binomial(n, k) == binomial(n, (n - k) as nat),
        binomial(n, n + 1) == 0,
{
    lemma_form_dimensions_sum(n);
    if k <= n {
        lemma_binomial_symmetric(n, k);
    }
    lemma_binomial_zero(n, n + 1);
}

/// With a 64-bit `usize`, `form_dimension` can be called for every k on
/// up to 60 generators: all intermediate products fit.
pub proof fn lemma_form_dimension_fits_60(n: nat, k: nat)
    requires
        n <= 60,
        usize::MAX == u64::MAX,
    ensures
        form_dimension_fits(n, k),
{
    if k <= n {
        let lim = if k <= n - k {
            k
        } else {
            (n - k) as nat
        };
        assert forall|i: nat| i < lim implies #[trigger] binomial(n, i) * (n - i) <= usize::MAX by {
            lemma_binomial_step(n, i);
            lemma_binomial_half_bound(n, i + 1);
            vstd::arithmetic::power2::lemma2_to64_rest();
            if n - 1 < 59 {
                vstd::arithmetic::power2::lemma_pow2_strictly_increases((n - 1) as nat, 59);
            }
            let c = binomial(n, i + 1);
            let pw = pow2((n - 1) as nat);
            assert(c * (i + 1) <= 0x800000000000000 * 30) by (nonlinear_arith)
                requires
                    c <= pw,
                    pw <= 0x800000000000000,
                    i + 1 <= 30,
            ;
        }
    }
}


/// The number of pairs (i, j) with i > j, i a generator of `a` and j a
/// generator of `b`, both below `n`: the transpositions needed to sort the
/// concatenation of the two monomials.
pub open spec fn inversions(a: u64, b: u64, n: nat) -> nat
    decreases n,
{
    if n == 0 {
        0
    } else {
        inversions(a, b, (n - 1) as nat) + (if has_bit(a, (n - 1) as nat) {
            count_below(b, (n - 1) as nat)
        } else {
            0nat
        })
    }
}

/// (-1)^k.
pub open spec fn parity_sign(k: nat) -> int {
    if k % 2 == 0 {
        1
    } else {
        -1
    }
}

/// The Koszul sign of the monomials `a`, `b` over `n` generators.
pub open spec fn koszul(n: nat, a: u64, b: u64) -> int {
    parity_sign(inversions(a, b, n))
}

/// The signed wedge product of two monomials: the zero form `(0, 0)` when
/// they share a generator, the Koszul sign and the union otherwise.
pub open spec fn wedge_product(n: nat, a: u64, b: u64) -> (int, u64) {
    if a & b != 0 {
        (0, 0)
    } else {
        (koszul(n, a, b), a | b)
    }
}

/// The generator indices of `mask` below `k`, in increasing order.
pub open spec fn positions(mask: u64, k: nat) -> Seq<u64>
    decreases k,
{
    if k == 0 {
        Seq::empty()
    } else if has_bit(mask, (k - 1) as nat) {
        positions(mask, (k - 1) as nat).push((k - 1) as u64)
    } else {
        positions(mask, (k - 1) as nat)
    }
}

/// The number of entries of `s` smaller than `x`.
pub open spec fn count_less(s: Seq<u64>, x: u64) -> nat
    decreases s.len(),
{
    if s.len() == 0 {
        0
    } else {
        count_less(s.drop_last(), x) + (if s.last() < x {
            1nat
        } else {
            0nat
        })
    }
}

/// The number of pairs (u, v), u from `s`, v from `t`, with u > v.
pub open spec fn pairs_greater(s: Seq<u64>, t: Seq<u64>) -> nat
    decreases s.len(),
{
    if s.len() == 0 {
        0
    } else {
        pairs_greater(s.drop_last(), t) + count_less(t, s.last())
    }
}

proof fn lemma_parity_sign_step(k: nat)
    ensures
        parity_sign(k + 1) == -parity_sign(k),
{
}

proof fn lemma_count_less_positions(b: u64, k: nat, x: u64)
    requires
        k <= 64,
        x < 64,
    ensures
        count_less(positions(b, k), x) == count_below(b, if (x as nat) < k { x as nat } else { k }),
    decreases k,
{
    if k > 0 {
        lemma_count_less_positions(b, (k - 1) as nat, x);
        let p = positions(b, (k - 1) as nat);
        if has_bit(b, (k - 1) as nat) {
            assert(p.push((k - 1) as u64).drop_last() =~= p);
        }
    }
}

proof fn lemma_pairs_positions(a: u64, b: u64, k: nat, n: nat)
    requires
        k <= n,
        n <= 64,
    ensures
        pairs_greater(positions(a, k), positions(b, n)) == inversions(a, b, k),
    decreases k,
{
    if k > 0 {
        lemma_pairs_positions(a, b, (k - 1) as nat, n);
        let p = positions(a, (k - 1) as nat);
        if has_bit(a, (k - 1) as nat) {
            assert(p.push((k - 1) as u64).drop_last() =~= p);
            lemma_count_less_positions(b, n, (k - 1) as u64);
        }
    }
}


/// (-1)^(x+y) = (-1)^x · (-1)^y.
pub proof fn lemma_parity_sign_add(x: nat, y: nat)
    ensures
        parity_sign(x + y) == parity_sign(x) * parity_sign(y),
        parity_sign(x) * parity_sign(x) == 1,
{
}

/// Monomials already in order need no transposition: when every generator
/// of `a` comes before every generator of `b`, the Koszul sign is +1.
pub proof fn lemma_inversions_sorted(a: u64, b: u64, n: nat)
    requires
        forall|i: nat, j: nat| has_bit(a, i) && has_bit(b, j) ==> i < j,
    ensures
        inversions(a, b, n) == 0,
        koszul(n, a, b) == 1,
    decreases n,
{
    if n > 0 {
        let m = (n - 1) as nat;
        lemma_inversions_sorted(a, b, m);
        if has_bit(a, m) {
            lemma_count_below_none(b, m, m);
        }
    }
}

proof fn lemma_count_below_none(b: u64, bound: nat, k: nat)
    requires
        k <= bound,
        forall|j: nat| j < bound ==> !#[trigger] has_bit(b, j),
    ensures
        count_below(b, k) == 0,
    decreases k,
{
    if k > 0 {
        lemma_count_below_none(b, bound, (k - 1) as nat);
    }
}

/// Moving the single generator e_j in front of the monomial `b` passes the
/// generators of `b` below j: inv(e_j, b) = |b below j|.
pub proof fn lemma_inversions_single(j: nat, b: u64, n: nat)
    requires
        j < 64,
    ensures
        inversions(1u64 << (j as u64), b, n) == if j < n {
            count_below(b, j)
        } else {
            0
        },
    decreases n,
{
    if n > 0 {
        let m = (n - 1) as nat;
        lemma_inversions_single(j, b, m);
        if m < 64 {
            lemma_single_bit(j, m);
        }
    }
}

/// For monomials without a common generator, every pair of generators is
/// out of order in exactly one of the two concatenations:
/// inv(a, b) + inv(b, a) = |a|·|b|.
pub proof fn lemma_inversions_antisymmetric(a: u64, b: u64, n: nat)
    requires
        a & b == 0,
    ensures
        inversions(a, b, n) + inversions(b, a, n) == count_below(a, n) * count_below(b, n),
    decreases n,
{
    if n > 0 {
        let m = (n - 1) as nat;
        lemma_inversions_antisymmetric(a, b, m);
        lemma_disjoint_bits(a, b);
        assert(!(has_bit(a, m) && has_bit(b, m)));
        let ia = if has_bit(a, m) { 1nat } else { 0nat };
        let ib = if has_bit(b, m) { 1nat } else { 0nat };
        let ca = count_below(a, m);
        let cb = count_below(b, m);
        assert(inversions(a, b, n) == inversions(a, b, m) + ia * cb) by (nonlinear_arith)
            requires
                inversions(a, b, n) == inversions(a, b, m) + (if ia == 1 { cb } else { 0nat }),
                ia == 0 || ia == 1,
        ;
        assert(inversions(b, a, n) == inversions(b, a, m) + ib * ca) by (nonlinear_arith)
            requires
                inversions(b, a, n) == inversions(b, a, m) + (if ib == 1 { ca } else { 0nat }),
                ib == 0 || ib == 1,
        ;
        assert((ca + ia) * (cb + ib) == ca * cb + ia * cb + ib * ca) by (nonlinear_arith)
            requires
                ia * ib == 0,
        ;
        assert(count_below(a, n) == ca + ia);
        assert(count_below(b, n) == cb + ib);
        let (i1, i2, p1, p2) = (inversions(a, b, n), inversions(b, a, n), count_below(a, n), count_below(b, n));
        assert(i1 + i2 == p1 * p2) by (nonlinear_arith)
            requires
                i1 == inversions(a, b, m) + ia * cb,
                i2 == inversions(b, a, m) + ib * ca,
                inversions(a, b, m) + inversions(b, a, m) == ca * cb,
                (ca + ia) * (cb + ib) == ca * cb + ia * cb + ib * ca,
                p1 == ca + ia,
                p2 == cb + ib,
        ;
    } else {
        assert(count_below(a, 0) == 0);
        assert(count_below(a, 0) * count_below(b, 0) == 0) by (nonlinear_arith)
            requires
                count_below(a, 0) == 0,
        ;
    }
}

/// Graded commutativity of the exterior algebra: swapping two monomials
/// multiplies their wedge product by (-1)^(|a|·|b|), and both orders give
/// the same monomial.
pub proof fn lemma_wedge_graded_commutative(n: nat, a: u64, b: u64)
    ensures
        wedge_product(n, a, b).1 == wedge_product(n, b, a).1,
        wedge_product(n, a, b).0 == parity_sign(count_below(a, n) * count_below(b, n))
            * wedge_product(n, b, a).0,
{
    assert((a & b != 0) == (b & a != 0)) by (bit_vector);
    assert(a | b == b | a) by (bit_vector);
    if a & b == 0 {
        lemma_inversions_antisymmetric(a, b, n);
        let x = inversions(a, b, n);
        let y = inversions(b, a, n);
        lemma_parity_sign_add(x, y);
        lemma_parity_sign_add(y, y);
        let px = parity_sign(x);
        let py = parity_sign(y);
        assert(px == parity_sign(x + y) * py) by (nonlinear_arith)
            requires
                parity_sign(x + y) == px * py,
                py * py == 1,
        ;
    } else {
        assert(wedge_product(n, a, b).0 == 0);
        assert(wedge_product(n, b, a).0 == 0);
        assert(parity_sign(count_below(a, n) * count_below(b, n)) * 0 == 0);
    }
}

/// The sign rule ab = (-1)^(|a||b|) ba of the README holds in the exterior
/// algebra, with a monomial's parity given by its degree: the Koszul signs
/// of the two orders differ by the exchange sign of the monomials' parities.
pub proof fn lemma_wedge_sign_rule(n: nat, a: u64, b: u64)
    ensures
        wedge_product(n, a, b).0 == exchange_sign(
            Parity::from_grade(count_below(a, n)),
            Parity::from_grade(count_below(b, n)),
        ) * wedge_product(n, b, a).0,
{
    lemma_wedge_graded_commutative(n, a, b);
    let x = count_below(a, n);
    let y = count_below(b, n);
    vstd::arithmetic::div_mod::lemma_mul_mod_noop(x as int, y as int, 2);
    let rx = x % 2;
    let ry = y % 2;
    if rx == 1 && ry == 1 {
        assert(rx * ry == 1);
    } else {
        assert(rx * ry == 0) by (nonlinear_arith)
            requires
                rx == 0 || ry == 0,
        ;
    }
    assert(parity_sign(x * y) == exchange_sign(Parity::from_grade(x), Parity::from_grade(y)));
}

proof fn lemma_zero_mask_counts(a: u64, n: nat)
    ensures
        count_below(0u64, n) == 0,
        inversions(0u64, a, n) == 0,
        inversions(a, 0u64, n) == 0,
    decreases n,
{
    if n > 0 {
        lemma_zero_mask_counts(a, (n - 1) as nat);
        let t = (n - 1) as u64;
        assert((0u64 & (1u64 << t)) == 0u64) by (bit_vector);
    }
}

/// The empty monomial 1 is the unit of the wedge product, and every
/// non-empty monomial squares to zero (θ ∧ θ = 0).
pub proof fn lemma_wedge_unit_and_nilpotent(n: nat, a: u64)
    ensures
        wedge_product(n, 0u64, a) == (1int, a),
        wedge_product(n, a, 0u64) == (1int, a),
        a != 0 ==> wedge_product(n, a, a) == (0int, 0u64),
{
    lemma_zero_mask_counts(a, n);
    assert(0u64 & a == 0u64 && a & 0u64 == 0u64 && 0u64 | a == a && a | 0u64 == a) by (bit_vector);
    assert(a != 0u64 ==> a & a != 0u64) by (bit_vector);
}

/// The wedge product of monomials is symmetric as a set operation:
/// a ∧ b and b ∧ a vanish together and have the same support.
pub proof fn lemma_wedge_symmetric(a: u64, b: u64)
    ensures
        (a & b != 0) == (b & a != 0),
        a | b == b | a,
{
    assert((a & b != 0) == (b & a != 0)) by (bit_vector);
    assert(a | b == b | a) by (bit_vector);
}

/// The wedge product adds degrees: |a ∧ b| = |a| + |b| for monomials
/// without a common generator.
pub proof fn lemma_wedge_degree(a: u64, b: u64)
    requires
        a & b == 0,
    ensures
        popcount(a | b) == popcount(a) + popcount(b),
{
    lemma_count_below_disjoint_union(a, b, 64);
}

proof fn lemma_inversions_union_left(a: u64, b: u64, c: u64, n: nat)
    requires
        a & b == 0,
    ensures
        inversions(a | b, c, n) == inversions(a, c, n) + inversions(b, c, n),
    decreases n,
{
    if n > 0 {
        let m = (n - 1) as nat;
        lemma_inversions_union_left(a, b, c, m);
        lemma_disjoint_bits(a, b);
        if m < 64 {
            lemma_bit_or_and(a, b, m);
        }
    }
}

proof fn lemma_inversions_union_right(a: u64, b: u64, c: u64, n: nat)
    requires
        b & c == 0,
    ensures
        inversions(a, b | c, n) == inversions(a, b, n) + inversions(a, c, n),
    decreases n,
{
    if n > 0 {
        let m = (n - 1) as nat;
        lemma_inversions_union_right(a, b, c, m);
        lemma_count_below_disjoint_union(b, c, m);
    }
}

/// Associativity of the signed wedge product of monomials:
/// (a ∧ b) ∧ c = a ∧ (b ∧ c), signs included; when the product is not zero
/// both groupings give the same monomial.
pub proof fn lemma_wedge_associative(n: nat, a: u64, b: u64, c: u64)
    ensures
        ({
            let (s1, ab) = wedge_product(n, a, b);
            let (s2, ab_c) = wedge_product(n, ab, c);
            let (t1, bc) = wedge_product(n, b, c);
            let (t2, a_bc) = wedge_product(n, a, bc);
            &&& s1 * s2 == t1 * t2
            &&& s1 * s2 != 0 ==> ab_c == a_bc
        }),
{
    let ab = a | b;
    let bc = b | c;
    assert((a | b) | c == a | (b | c)) by (bit_vector);
    assert(a & b != 0 ==> a & (b | c) != 0) by (bit_vector);
    assert(a & c != 0 ==> (a | b) & c != 0 && a & (b | c) != 0) by (bit_vector);
    assert(b & c != 0 ==> (a | b) & c != 0) by (bit_vector);
    assert((a & b == 0 && a & c == 0 && b & c == 0) ==> ((a | b) & c == 0 && a & (b | c) == 0))
        by (bit_vector);
    assert((a & b == 0 && (a | b) & c == 0) ==> (a & c == 0 && b & c == 0)) by (bit_vector);
    assert((b & c == 0 && a & (b | c) == 0) ==> (a & b == 0 && a & c == 0)) by (bit_vector);
    if a & b == 0 && a & c == 0 && b & c == 0 {
        lemma_inversions_union_left(a, b, c, n);
        lemma_inversions_union_right(a, b, c, n);
        let x = inversions(a, b, n);
        let y = inversions(a, c, n);
        let z = inversions(b, c, n);
        lemma_parity_sign_add(x, y + z);
        lemma_parity_sign_add(x + y, z);
        lemma_parity_sign_add(y, z);
        lemma_parity_sign_add(x, y);
        let (px, py, pz) = (parity_sign(x), parity_sign(y), parity_sign(z));
        assert(wedge_product(n, a, b).0 == px);
        assert(wedge_product(n, ab, c).0 == parity_sign(y + z));
        assert(wedge_product(n, b, c).0 == pz);
        assert(wedge_product(n, a, bc).0 == parity_sign(x + y));
        assert(px * parity_sign(y + z) == pz * parity_sign(x + y)) by (nonlinear_arith)
            requires
                parity_sign(y + z) == py * pz,
                parity_sign(x + y) == px * py,
        ;
    } else {
        let (s1, m1) = wedge_product(n, a, b);
        let (s2, m2) = wedge_product(n, m1, c);
        let (t1, k1) = wedge_product(n, b, c);
        let (t2, k2) = wedge_product(n, a, k1);
        assert(s1 == 0 || s2 == 0);
        assert(t1 == 0 || t2 == 0);
        assert(s1 * s2 == 0) by (nonlinear_arith)
            requires
                s1 == 0 || s2 == 0,
        ;
        assert(t1 * t2 == 0) by (nonlinear_arith)
            requires
                t1 == 0 || t2 == 0,
        ;
    }
}

/// Exterior algebra on n generators.
#[derive(Debug, Clone)]
pub struct ExteriorAlgebra {
    pub n_generators: usize,
    pub generator_labels: Vec<String>,
}

impl ExteriorAlgebra {
    /// Λ(V) on `n` generators, labelled by `labels` when there is one label
    /// per generator and `e0, e1, ...` otherwise.
    pub fn new(n: usize, labels: Vec<String>) -> (e: Self)
        ensures
            e.n_generators == n,
            labels.len() == n ==> e.generator_labels@ == labels@,
            labels.len() != n ==> e.generator_labels.len() == n && forall|i: int|
                0 <= i < n ==> (#[trigger] e.generator_labels@[i])@ == index_label(
                    "e"@,
                    i as nat,
                ),
    {
        let labels = labels_or_default(labels, "e", n);
        ExteriorAlgebra { n_generators: n, generator_labels: labels }
    }

    /// Dimension of the exterior algebra: 2^n.
    pub fn dimension(&self) -> (d: usize)
        requires
            self.n_generators < usize::BITS,
        ensures
            d == pow2(self.n_generators as nat),
    {
        proof {
            vstd::bits::lemma_usize_pow2_no_overflow(self.n_generators as nat);
            vstd::bits::lemma_usize_shl_is_mul(1, self.n_generators);
        }
        1usize << self.n_generators
    }

    /// Dimension of the k-forms subspace: C(n, k).
    pub fn form_dimension(&self, k: usize) -> (d: usize)
        requires
            form_dimension_fits(self.n_generators as nat, k as nat),
        ensures
            d == binomial(self.n_generators as nat, k as nat),
    {
        let n = self.n_generators;
        if k > n {
            proof {
                lemma_binomial_zero(n as nat, k as nat);
            }
            0
        } else {
            let m = k.min(n - k);
            assert(m == (if k <= n - k { k } else { (n - k) as usize }));
            let mut binom: usize = 1;
            let mut i: usize = 0;
            while i < m
                invariant
                    m <= n,
                    i <= m,
                    m == (if k <= n - k { k } else { (n - k) as usize }),
                    k <= n,
                    form_dimension_fits(n as nat, k as nat),
                    binom == binomial(n as nat, i as nat),
                decreases m - i,
            {
                proof {
                    lemma_binomial_step(n as nat, i as nat);
                    assert(binomial(n as nat, i as nat) * (n - i) <= usize::MAX);
                }
                let prod = binom * (n - i);
                proof {
                    let c = binomial(n as nat, (i + 1) as nat);
                    assert(prod as int / (i + 1) as int == c) by (nonlinear_arith)
                        requires
                            c * (i + 1) == prod,
                            i + 1 > 0,
                    ;
                }
                binom = prod / (i + 1);
                i = i + 1;
            }
            proof {
                if k > n - k {
                    lemma_binomial_symmetric(n as nat, k as nat);
                }
            }
            binom
        }
    }

    /// Wedge product of two monomials represented as bitmasks.
    /// Returns None if they share a generator (the product is 0).
    pub fn wedge(&self, a_mask: u64, b_mask: u64) -> (r: Option<u64>)
        ensures
            r == (if a_mask & b_mask != 0 {
                None
            } else {
                Some(a_mask | b_mask)
            }),
    {
        if a_mask & b_mask != 0 {
            None
        } else {
            Some(a_mask | b_mask)
        }
    }

    /// Sign from reordering: (-1)^(number of pairs (i, j) with i a generator
    /// of `a`, j a generator of `b` and i > j), over the n generators.
    pub fn koszul_sign(&self, a_mask: u64, b_mask: u64) -> (s: i64)
        requires
            self.n_generators <= 64,
        ensures
            s == koszul(self.n_generators as nat, a_mask, b_mask),
    {
        let n = self.n_generators;
        let mut sign: i64 = 1;
        let mut a_bits: Vec<u64> = Vec::new();
        let mut b_bits: Vec<u64> = Vec::new();
        let mut i: usize = 0;
        while i < n
            invariant
                i <= n,
                n <= 64,
                a_bits@ == positions(a_mask, i as nat),
                b_bits@ == positions(b_mask, i as nat),
            decreases n - i,
        {
            let bit = i as u64;
            if a_mask & (1u64 << bit) != 0 {
                a_bits.push(bit);
            }
            if b_mask & (1u64 << bit) != 0 {
                b_bits.push(bit);
            }
            i = i + 1;
        }
        let ghost bs = b_bits@;
        let mut x: usize = 0;
        while x < a_bits.len()
            invariant
                x <= a_bits.len(),
                b_bits@ == bs,
                sign == parity_sign(pairs_greater(a_bits@.take(x as int), bs)),
            decreases a_bits.len() - x,
        {
            let ai = a_bits[x];
            let mut y: usize = 0;
            while y < b_bits.len()
                invariant
                    x < a_bits.len(),
                    ai == a_bits@[x as int],
                    y <= b_bits.len(),
                    b_bits@ == bs,
                    sign == parity_sign(
                        pairs_greater(a_bits@.take(x as int), bs) + count_less(
                            bs.take(y as int),
                            ai,
                        ),
                    ),
                decreases b_bits.len() - y,
            {
                let bj = b_bits[y];
                let ghost before = pairs_greater(a_bits@.take(x as int), bs) + count_less(
                    bs.take(y as int),
                    ai,
                );
                proof {
                    assert(bs.take(y + 1).drop_last() =~= bs.take(y as int));
                    assert(bs.take(y + 1).last() == bj);
                    assert(count_less(bs.take(y + 1), ai) == count_less(bs.take(y as int), ai) + (
                    if bj < ai {
                        1nat
                    } else {
                        0nat
                    }));
                    lemma_parity_sign_step(before);
                }
                if ai > bj {
                    sign = -sign;
                }
                y = y + 1;
            }
            assert(bs.take(bs.len() as int) =~= bs);
            assert(a_bits@.take(x + 1).drop_last() =~= a_bits@.take(x as int));
            x = x + 1;
        }
        proof {
            assert(a_bits@.take(a_bits.len() as int) =~= a_bits@);
            lemma_pairs_positions(a_mask, b_mask, n as nat, n as nat);
        }
        sign
    }

    /// Full wedge product with Koszul sign: `(0, 0)` when the monomials
    /// share a generator.
    pub fn signed_wedge(&self, a_mask: u64, b_mask: u64) -> (r: (i64, u64))
        requires
            a_mask & b_mask == 0 ==> self.n_generators <= 64,
        ensures
            (r.0 as int, r.1) == wedge_product(self.n_generators as nat, a_mask, b_mask),
    {
        if a_mask & b_mask != 0 {
            (0, 0)
        } else {
            (self.koszul_sign(a_mask, b_mask), a_mask | b_mask)
        }
    }
}

} // verus!
