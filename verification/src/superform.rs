//! Superforms on a (p|q) supermanifold: components indexed by a θ-monomial
//! of the coefficient and a monomial of differentials (dx₁..dx_p then
//! dθ₁..dθ_q), both as bitmasks. This module decides the differential
//! structure and the signs; the coefficients are combined by the caller.

use vstd::prelude::*;
use crate::bits::{
    bit_is_set, count_below, count_bits_below, count_ones, has_bit, lemma_bit_or_and,
    lemma_count_below_bounds, lemma_count_below_disjoint_union, lemma_single_bit,
    lemma_single_bit_count, lemma_low_mask_bits_exact, low_bits, low_mask, popcount,
};
use crate::exterior::{inversions, koszul, lemma_inversions_single, parity_sign};

verus! {

/// (-1)^k as a machine integer.
pub open spec fn sign_of(k: nat) -> i64 {
    if k % 2 == 0 {
        1i64
    } else {
        -1i64
    }
}

/// The terms that the exterior derivative produces from a component with
/// differential monomial `diff`, for the differentials 0..k: for every
/// differential j not in `diff`, the monomial with dj added and the Koszul
/// sign (-1)^(number of differentials of `diff` below j).
pub open spec fn derivative_terms(diff: u64, k: nat) -> Seq<(u64, i64)>
    decreases k,
{
    if k == 0 {
        Seq::empty()
    } else {
        let j = (k - 1) as nat;
        if has_bit(diff, j) {
            derivative_terms(diff, j)
        } else {
            derivative_terms(diff, j).push(
                ((diff | (1u64 << (j as u64))) as u64, sign_of(count_below(diff, j))),
            )
        }
    }
}

/// The terms of d applied to a component with differential monomial `diff`
/// on a manifold with `total_diffs` differentials.
pub fn exterior_derivative_terms(diff: u64, total_diffs: usize) -> (terms: Vec<(u64, i64)>)
    requires
        total_diffs <= 64,
    ensures
        terms@ == derivative_terms(diff, total_diffs as nat),
{
    let mut terms: Vec<(u64, i64)> = Vec::new();
    let total = total_diffs as u64;
    let mut k: u64 = 0;
    while k < total
        invariant
            k <= total,
            total == total_diffs,
            total <= 64,
            terms@ == derivative_terms(diff, k as nat),
        decreases total - k,
    {
        if diff & (1u64 << k) == 0 {
            let new_diff = diff | (1u64 << k);
            let sign: i64 = if count_bits_below(diff, k) % 2 == 0 {
                1
            } else {
                -1
            };
            terms.push((new_diff, sign));
        }
        k = k + 1;
    }
    terms
}

/// The sign of the wedge product of components with differential monomials
/// `d1` and `d2`: `None` when they share a differential (the product
/// vanishes), otherwise the Koszul sign (-1)^(number of pairs (i, j) with
/// i a differential of `d1`, j a differential of `d2` and i > j), so that
/// odd one-forms anticommute: dx_i ∧ dx_j = -dx_j ∧ dx_i.
pub fn wedge_sign(d1: u64, d2: u64) -> (r: Option<i64>)
    ensures
        r == (if d1 & d2 != 0 {
            None
        } else {
            Some(sign_of(inversions(d1, d2, 64)))
        }),
        r matches Some(s) ==> s as int == koszul(64, d1, d2),
{
    if d1 & d2 == 0 {
        let mut inv: u64 = 0;
        let mut i: u64 = 0;
        while i < 64
            invariant
                i <= 64,
                inv == inversions(d1, d2, i as nat),
                inv <= i * 64,
            decreases 64 - i,
        {
            if bit_is_set(d1, i) {
                let below = count_bits_below(d2, i);
                proof {
                    lemma_count_below_bounds(d2, i as nat);
                }
                inv = inv + below as u64;
            }
            i = i + 1;
        }
        let sign: i64 = if inv % 2 == 0 {
            1
        } else {
            -1
        };
        Some(sign)
    } else {
        None
    }
}

/// The degree of a form whose components have the differential monomials
/// `diff_masks`: the common number of differentials when there is exactly
/// one, `None` for an empty or inhomogeneous form.
pub fn form_degree(diff_masks: &Vec<u64>) -> (r: Option<u32>)
    ensures
        r == (if diff_masks.len() > 0 && forall|i: int|
            0 <= i < diff_masks.len() ==> popcount(#[trigger] diff_masks@[i]) == popcount(
                diff_masks@[0],
            ) {
            Some(popcount(diff_masks@[0]) as u32)
        } else {
            None::<u32>
        }),
{
    if diff_masks.len() == 0 {
        return None;
    }
    let first = count_ones(diff_masks[0]);
    let mut i: usize = 1;
    while i < diff_masks.len()
        invariant
            1 <= i <= diff_masks.len(),
            first == popcount(diff_masks@[0]),
            forall|j: int| 0 <= j < i ==> popcount(#[trigger] diff_masks@[j]) == first,
        decreases diff_masks.len() - i,
    {
        if count_ones(diff_masks[i]) != first {
            return None;
        }
        i = i + 1;
    }
    Some(first)
}

/// The differential monomial of the volume form dx₁∧...∧dx_p∧dθ₁∧...∧dθ_q:
/// all p + q differentials.
pub fn volume_diff_mask(p: usize, q: usize) -> (m: u64)
    requires
        p + q < 64,
    ensures
        m == low_mask((p + q) as nat),
        popcount(m) == p + q,
{
    let total = p + q;
    proof {
        lemma_low_mask_bits_exact(total as nat);
    }
    low_bits(total as u64)
}

/// Setting a missing bit k adds one to the count below every bound above k.
pub proof fn lemma_count_add_bit(d: u64, k: nat, l: nat)
    requires
        k < 64,
        !has_bit(d, k),
    ensures
        count_below((d | (1u64 << (k as u64))) as u64, l) == count_below(d, l) + (if k < l {
            1nat
        } else {
            0nat
        }),
    decreases l,
{
    if l > 0 {
        let j = (l - 1) as nat;
        lemma_count_add_bit(d, k, j);
        if j < 64 {
            lemma_bit_or_and(d, 1u64 << (k as u64), j);
            let s = k as u64;
            let t = j as u64;
            assert(((1u64 << s) & (1u64 << t)) != 0u64 <==> s == t) by (bit_vector)
                requires
                    s < 64,
                    t < 64,
            ;
        }
    }
}

/// Adding a differential that is not yet present raises the degree by one
/// and keeps every differential already there.
proof fn lemma_add_differential(diff: u64, k: nat)
    requires
        k < 64,
        !has_bit(diff, k),
    ensures
        popcount((diff | (1u64 << (k as u64))) as u64) == popcount(diff) + 1,
        forall|i: nat|
            #[trigger] has_bit((diff | (1u64 << (k as u64))) as u64, i) == (has_bit(diff, i) || i
                == k),
{
    let s = k as u64;
    assert((diff & (1u64 << s)) == 0u64);
    lemma_count_below_disjoint_union(diff, 1u64 << s, 64);
    lemma_single_bit_count(k, 64);
    assert forall|i: nat|
        #[trigger] has_bit((diff | (1u64 << s)) as u64, i) == (has_bit(diff, i) || i == k) by {
        if i < 64 {
            lemma_bit_or_and(diff, 1u64 << s, i);
            lemma_single_bit(k, i);
        }
    }
}

/// d raises the form degree by exactly one: every term of d applied to a
/// component adds one differential that was missing, keeping the others,
/// and there is one term per missing differential below `total`. So a
/// component of degree r < total (with no differential at or above
/// `total`) has terms, all of degree r + 1.
pub proof fn lemma_derivative_raises_degree(diff: u64, total: nat)
    requires
        total <= 64,
    ensures
        forall|j: int|
            0 <= j < derivative_terms(diff, total).len() ==> {
                &&& popcount((#[trigger] derivative_terms(diff, total)[j]).0) == popcount(diff) + 1
                &&& forall|i: nat|
                    has_bit(diff, i) ==> #[trigger] has_bit(derivative_terms(diff, total)[j].0, i)
            },
        derivative_terms(diff, total).len() == total - count_below(diff, total),
        (forall|i: nat| i >= total ==> !#[trigger] has_bit(diff, i)) ==> count_below(diff, total)
            == popcount(diff),
    decreases total,
{
    lemma_count_below_bounds(diff, total);
    if total > 0 {
        let k = (total - 1) as nat;
        lemma_derivative_raises_degree(diff, k);
        lemma_count_below_bounds(diff, k);
        if !has_bit(diff, k) {
            lemma_add_differential(diff, k);
        }
        let t = derivative_terms(diff, total);
        let prev = derivative_terms(diff, k);
        assert forall|j: int| 0 <= j < t.len() implies {
            &&& popcount((#[trigger] t[j]).0) == popcount(diff) + 1
            &&& forall|i: nat| has_bit(diff, i) ==> #[trigger] has_bit(t[j].0, i)
        } by {
            if j < prev.len() {
                assert(t[j] == prev[j]);
            }
        }
    }
    if forall|i: nat| i >= total ==> !#[trigger] has_bit(diff, i) {
        lemma_count_below_tail(diff, total, 64);
    }
}

proof fn lemma_count_below_tail(diff: u64, total: nat, m: nat)
    requires
        total <= m <= 64,
        forall|i: nat| i >= total ==> !#[trigger] has_bit(diff, i),
    ensures
        count_below(diff, m) == count_below(diff, total),
    decreases m,
{
    if m > total {
        lemma_count_below_tail(diff, total, (m - 1) as nat);
        assert(!has_bit(diff, (m - 1) as nat));
    }
}

/// `term` is dx_j ∧ `diff` for the differential j (missing from `diff`),
/// with the Koszul sign of that wedge product.
pub open spec fn left_wedge_term(diff: u64, term: (u64, i64), j: nat, total: nat) -> bool {
    let dj = (1u64 << (j as u64)) as u64;
    &&& j < total
    &&& !has_bit(diff, j)
    &&& dj & diff == 0
    &&& term.0 == dj | diff
    &&& term.1 as int == koszul(64, dj, diff)
}

/// `term` is dx_j ∧ `diff` for some differential j.
pub open spec fn is_left_wedge(diff: u64, term: (u64, i64), total: nat) -> bool {
    exists|j: nat| #[trigger] left_wedge_term(diff, term, j, total)
}

/// The exterior derivative is the wedge with one differential from the
/// left: every term of d applied to `diff` is dx_j ∧ diff for a missing
/// differential j, with exactly the Koszul sign of that wedge product.
pub proof fn lemma_derivative_is_left_wedge(diff: u64, total: nat)
    requires
        total <= 64,
    ensures
        forall|t: int|
            0 <= t < derivative_terms(diff, total).len() ==> #[trigger] is_left_wedge(
                diff,
                derivative_terms(diff, total)[t],
                total,
            ),
    decreases total,
{
    if total > 0 {
        let k = (total - 1) as nat;
        lemma_derivative_is_left_wedge(diff, k);
        let prev = derivative_terms(diff, k);
        let cur = derivative_terms(diff, total);
        assert forall|t: int| 0 <= t < cur.len() implies #[trigger] is_left_wedge(
            diff,
            cur[t],
            total,
        ) by {
            if t < prev.len() {
                assert(cur[t] == prev[t]);
                assert(is_left_wedge(diff, prev[t], k));
                let j = choose|j: nat| #[trigger] left_wedge_term(diff, prev[t], j, k);
                assert(left_wedge_term(diff, cur[t], j, total));
            } else {
                let dj = 1u64 << (k as u64);
                assert((diff & dj) == 0u64);
                assert(dj & diff == 0u64 && dj | diff == diff | dj) by (bit_vector)
                    requires
                        (diff & dj) == 0u64,
                ;
                lemma_inversions_single(k, diff, 64);
                assert(sign_of(count_below(diff, k)) as int == parity_sign(count_below(diff, k)));
                assert(cur[t] == ((diff | dj) as u64, sign_of(count_below(diff, k))));
                assert(left_wedge_term(diff, cur[t], k, total));
            }
        }
    }
}

/// Adding two differentials k ≠ l in either order reaches the same monomial
/// with opposite signs.
pub proof fn lemma_swapped_pair_cancels(diff: u64, k: nat, l: nat)
    requires
        k < 64,
        l < 64,
        k != l,
        !has_bit(diff, k),
        !has_bit(diff, l),
    ensures
        ({
            let dk = (diff | (1u64 << (k as u64))) as u64;
            let dl = (diff | (1u64 << (l as u64))) as u64;
            &&& (dk | (1u64 << (l as u64))) == (dl | (1u64 << (k as u64)))
            &&& !has_bit(dk, l)
            &&& !has_bit(dl, k)
            &&& parity_sign(count_below(diff, k)) * parity_sign(count_below(dk, l)) == -(
            parity_sign(count_below(diff, l)) * parity_sign(count_below(dl, k)))
        }),
{
    let s = k as u64;
    let t = l as u64;
    let dk = (diff | (1u64 << s)) as u64;
    let dl = (diff | (1u64 << t)) as u64;
    assert((diff | (1u64 << s)) | (1u64 << t) == (diff | (1u64 << t)) | (1u64 << s)) by (bit_vector);
    lemma_count_add_bit(diff, k, l);
    lemma_count_add_bit(diff, l, k);
    lemma_bit_or_and(diff, 1u64 << s, l);
    lemma_bit_or_and(diff, 1u64 << t, k);
    assert(((1u64 << s) & (1u64 << t)) != 0u64 <==> s == t) by (bit_vector)
        requires
            s < 64,
            t < 64,
    ;
    assert(((1u64 << t) & (1u64 << s)) != 0u64 <==> s == t) by (bit_vector)
        requires
            s < 64,
            t < 64,
    ;
    let a = count_below(diff, k);
    let b = count_below(diff, l);
    assert(!has_bit(dk, l));
    assert(!has_bit(dl, k));
    if k < l {
        assert(count_below(dk, l) == b + 1);
        assert(count_below(dl, k) == a);
        assert(parity_sign(a) * parity_sign(b + 1) == -(parity_sign(b) * parity_sign(a)));
    } else {
        assert(count_below(dk, l) == b);
        assert(count_below(dl, k) == a + 1);
        assert(parity_sign(a) * parity_sign(b) == -(parity_sign(b) * parity_sign(a + 1)));
    }
}

/// h(0) + h(1) + ... + h(m-1).
pub open spec fn sum_upto(h: spec_fn(nat) -> int, m: nat) -> int
    decreases m,
{
    if m == 0 {
        0
    } else {
        sum_upto(h, (m - 1) as nat) + h((m - 1) as nat)
    }
}

/// The coefficient of the monomial `target` in a list of signed terms:
/// the sum of the signs of the terms with that monomial.
pub open spec fn coefficient(terms: Seq<(u64, i64)>, target: u64) -> int
    decreases terms.len(),
{
    if terms.len() == 0 {
        0
    } else {
        coefficient(terms.drop_last(), target) + (if terms.last().0 == target {
            terms.last().1 as int
        } else {
            0int
        })
    }
}

/// The coefficient of `target` in d applied to each of `terms` (weighted by
/// the term's sign): for `terms = d(ω)`, the coefficient of `target` in d(dω).
pub open spec fn second_coefficient(terms: Seq<(u64, i64)>, total: nat, target: u64) -> int
    decreases terms.len(),
{
    if terms.len() == 0 {
        0
    } else {
        second_coefficient(terms.drop_last(), total, target) + terms.last().1 as int
            * coefficient(derivative_terms(terms.last().0, total), target)
    }
}

/// The contribution of differential `l` to the coefficient of `target` in d
/// of the monomial `d`.
pub open spec fn step_coefficient(d: u64, l: nat, total: nat, target: u64) -> int {
    if l < total && !has_bit(d, l) && (d | (1u64 << (l as u64))) as u64 == target {
        sign_of(count_below(d, l)) as int
    } else {
        0
    }
}

/// The contribution of differential `k` to the coefficient of `target` in
/// d(d) of the monomial `diff`.
pub open spec fn second_step(diff: u64, k: nat, total: nat, target: u64) -> int {
    if k < total && !has_bit(diff, k) {
        sign_of(count_below(diff, k)) as int * coefficient(
            derivative_terms((diff | (1u64 << (k as u64))) as u64, total),
            target,
        )
    } else {
        0
    }
}

proof fn lemma_sum_zero(h: spec_fn(nat) -> int, m: nat)
    requires
        forall|k: nat| k < m ==> #[trigger] h(k) == 0,
    ensures
        sum_upto(h, m) == 0,
    decreases m,
{
    if m > 0 {
        lemma_sum_zero(h, (m - 1) as nat);
    }
}

proof fn lemma_sum_single(h: spec_fn(nat) -> int, m: nat, a: nat)
    requires
        a < m,
        forall|k: nat| k < m && k != a ==> #[trigger] h(k) == 0,
    ensures
        sum_upto(h, m) == h(a),
    decreases m,
{
    if m - 1 == a {
        lemma_sum_zero(h, a);
    } else {
        lemma_sum_single(h, (m - 1) as nat, a);
    }
}

proof fn lemma_sum_pair(h: spec_fn(nat) -> int, m: nat, a: nat, b: nat)
    requires
        a < m,
        b < m,
        a != b,
        forall|k: nat| k < m && k != a && k != b ==> #[trigger] h(k) == 0,
    ensures
        sum_upto(h, m) == h(a) + h(b),
    decreases m,
{
    if m - 1 == a {
        lemma_sum_single(h, a, b);
    } else if m - 1 == b {
        lemma_sum_single(h, b, a);
    } else {
        lemma_sum_pair(h, (m - 1) as nat, a, b);
    }
}

proof fn lemma_coefficient_as_sum(d: u64, m: nat, total: nat, target: u64)
    requires
        m <= total,
        total <= 64,
    ensures
        coefficient(derivative_terms(d, m), target) == sum_upto(
            |l: nat| step_coefficient(d, l, total, target),
            m,
        ),
    decreases m,
{
    if m > 0 {
        let k = (m - 1) as nat;
        lemma_coefficient_as_sum(d, k, total, target);
        let prev = derivative_terms(d, k);
        if !has_bit(d, k) {
            let x = ((d | (1u64 << (k as u64))) as u64, sign_of(count_below(d, k)));
            assert(prev.push(x).drop_last() =~= prev);
        }
    }
}

proof fn lemma_second_coefficient_as_sum(diff: u64, m: nat, total: nat, target: u64)
    requires
        m <= total,
        total <= 64,
    ensures
        second_coefficient(derivative_terms(diff, m), total, target) == sum_upto(
            |k: nat| second_step(diff, k, total, target),
            m,
        ),
    decreases m,
{
    if m > 0 {
        let k = (m - 1) as nat;
        lemma_second_coefficient_as_sum(diff, k, total, target);
        let prev = derivative_terms(diff, k);
        if !has_bit(diff, k) {
            let x = ((diff | (1u64 << (k as u64))) as u64, sign_of(count_below(diff, k)));
            assert(prev.push(x).drop_last() =~= prev);
        }
    }
}

/// In d of a monomial `e`, at most one differential reaches `target`, so the
/// coefficient of `target` is that one term's sign, or 0.
proof fn lemma_coefficient_unique(e: u64, total: nat, target: u64, l: nat)
    requires
        total <= 64,
        step_coefficient(e, l, total, target) != 0,
    ensures
        coefficient(derivative_terms(e, total), target) == step_coefficient(e, l, total, target),
{
    lemma_coefficient_as_sum(e, total, total, target);
    let h = |j: nat| step_coefficient(e, j, total, target);
    assert forall|j: nat| j < total && j != l implies #[trigger] h(j) == 0 by {
        if step_coefficient(e, j, total, target) != 0 {
            lemma_add_differential(e, j);
            lemma_add_differential(e, l);
            assert(has_bit(target, l));
        }
    }
    lemma_sum_single(h, total, l);
}

proof fn lemma_coefficient_none(e: u64, total: nat, target: u64)
    requires
        total <= 64,
        forall|l: nat| #[trigger] step_coefficient(e, l, total, target) == 0,
    ensures
        coefficient(derivative_terms(e, total), target) == 0,
{
    lemma_coefficient_as_sum(e, total, total, target);
    let h = |j: nat| step_coefficient(e, j, total, target);
    assert forall|j: nat| j < total implies #[trigger] h(j) == 0 by {
        assert(step_coefficient(e, j, total, target) == 0);
    }
    lemma_sum_zero(h, total);
}

/// d∘d = 0: for every component with differential monomial `diff` on a
/// manifold with `total` differentials, every monomial `target` has
/// coefficient 0 in d(d(diff)): the terms of the second derivative cancel.
pub proof fn lemma_derivative_squared_vanishes(diff: u64, total: nat, target: u64)
    requires
        total <= 64,
    ensures
        second_coefficient(derivative_terms(diff, total), total, target) == 0,
{
    lemma_second_coefficient_as_sum(diff, total, total, target);
    let h = |k: nat| second_step(diff, k, total, target);
    if exists|k0: nat| k0 < total && #[trigger] h(k0) != 0 {
        let k0 = choose|k0: nat| k0 < total && #[trigger] h(k0) != 0;
        let e0 = (diff | (1u64 << (k0 as u64))) as u64;
        assert(!has_bit(diff, k0));
        if forall|l: nat| #[trigger] step_coefficient(e0, l, total, target) == 0 {
            lemma_coefficient_none(e0, total, target);
            assert(false);
        }
        let l0 = choose|l: nat| #[trigger] step_coefficient(e0, l, total, target) != 0;
        lemma_add_differential(diff, k0);
        lemma_add_differential(e0, l0);
        assert(l0 != k0);
        assert(!has_bit(diff, l0));
        let e1 = (diff | (1u64 << (l0 as u64))) as u64;
        lemma_swapped_pair_cancels(diff, k0, l0);
        lemma_add_differential(diff, l0);
        lemma_add_differential(e1, k0);
        assert(step_coefficient(e1, k0, total, target) != 0);
        lemma_coefficient_unique(e0, total, target, l0);
        lemma_coefficient_unique(e1, total, target, k0);
        // every other differential contributes nothing
        assert forall|k: nat| k < total && k != k0 && k != l0 implies #[trigger] h(k) == 0 by {
            if h(k) != 0 {
                let e = (diff | (1u64 << (k as u64))) as u64;
                if forall|l: nat| #[trigger] step_coefficient(e, l, total, target) == 0 {
                    lemma_coefficient_none(e, total, target);
                }
                let l = choose|l: nat| #[trigger] step_coefficient(e, l, total, target) != 0;
                lemma_add_differential(diff, k);
                lemma_add_differential(e, l);
                assert(has_bit(target, k));
            }
        }
        lemma_sum_pair(h, total, k0, l0);
        let a = count_below(diff, k0);
        let b = count_below(e0, l0);
        let c = count_below(diff, l0);
        let d = count_below(e1, k0);
        assert(h(k0) == sign_of(a) as int * sign_of(b) as int);
        assert(h(l0) == sign_of(c) as int * sign_of(d) as int);
        assert(sign_of(a) as int == parity_sign(a));
        assert(sign_of(b) as int == parity_sign(b));
        assert(sign_of(c) as int == parity_sign(c));
        assert(sign_of(d) as int == parity_sign(d));
    } else {
        lemma_sum_zero(h, total);
    }
}

} // verus!
