//! Berezin integration over Grassmann variables θ₀, ..., θ_{n-1}.
//!
//! A function of the θ's is a table of coefficients indexed by θ-monomials
//! (bitmasks). ∫ θ dθ = 1 and ∫ 1 dθ = 0, so integrating over θ_k keeps the
//! monomials that contain θ_k, drops θ_k from them and multiplies by the
//! sign of moving θ_k to the front.

use vstd::prelude::*;
use crate::bits::{
    count_below, count_bits_below, has_bit, lemma_bit_or_and, lemma_bits_extensional, lemma_single_bit,
    lemma_low_mask_bits_exact, low_bits, low_mask,
};
use crate::exterior::{koszul, lemma_inversions_single, parity_sign};
use crate::superform::lemma_count_add_bit;
use crate::labels::{index_label, labels_or_default};

verus! {

/// What integrating the monomial `mask` over θ_v leaves: nothing when the
/// monomial lacks θ_v, otherwise the monomial without θ_v and the sign
/// (-1)^(number of θ's before θ_v in it).
pub open spec fn berezin_term(mask: u64, v: nat) -> Option<(u64, int)> {
    if has_bit(mask, v) {
        Some(((mask ^ (1u64 << (v as u64))) as u64, parity_sign(count_below(mask, v))))
    } else {
        None
    }
}

/// Integrating the monomial `mask` over θ₀, then θ₁, ..., then θ_{k-1}:
/// the remaining monomial and the accumulated sign, or nothing.
pub open spec fn berezin_iterated(mask: u64, k: nat) -> Option<(u64, int)>
    decreases k,
{
    if k == 0 {
        Some((mask, 1))
    } else {
        match berezin_iterated(mask, (k - 1) as nat) {
            None => None,
            Some((m, s)) => match berezin_term(m, (k - 1) as nat) {
                None => None,
                Some((m2, s2)) => Some((m2, s * s2)),
            },
        }
    }
}

/// Berezin integral over a Grassmann algebra with n generators.
#[derive(Debug, Clone)]
pub struct BerezinIntegrator {
    pub n_variables: usize,
    pub labels: Vec<String>,
}

impl BerezinIntegrator {
    /// An integrator over `n` variables, labelled by `labels` when there is
    /// one label per variable and `θ0, θ1, ...` otherwise.
    pub fn new(n: usize, labels: Vec<String>) -> (b: Self)
        ensures
            b.n_variables == n,
            labels.len() == n ==> b.labels@ == labels@,
            labels.len() != n ==> b.labels.len() == n && forall|i: int|
                0 <= i < n ==> (#[trigger] b.labels@[i])@ == index_label("θ"@, i as nat),
    {
        let labels = labels_or_default(labels, "θ", n);
        BerezinIntegrator { n_variables: n, labels }
    }

    /// The top monomial θ₀θ₁...θ_{n-1}, whose coefficient is the integral
    /// over all n variables.
    pub fn top_monomial(&self) -> (m: u64)
        requires
            self.n_variables < 64,
        ensures
            m == low_mask(self.n_variables as nat),
    {
        low_bits(self.n_variables as u64)
    }

    /// Integration of the monomial `mask` over θ_{var_index}: `None` when
    /// the monomial does not contain θ_{var_index} (it integrates to 0),
    /// otherwise the reduced monomial and its sign.
    pub fn integrate_term(mask: u64, var_index: usize) -> (r: Option<(u64, i64)>)
        requires
            var_index < 64,
        ensures
            r is None <==> berezin_term(mask, var_index as nat) is None,
            r matches Some((m, s)) ==> berezin_term(mask, var_index as nat) == Some(
                (m, s as int),
            ),
    {
        let bit = 1u64 << var_index as u64;
        if mask & bit != 0 {
            let reduced_mask = mask ^ bit;
            let sign: i64 = if count_bits_below(mask, var_index as u64) % 2 == 0 {
                1
            } else {
                -1
            };
            Some((reduced_mask, sign))
        } else {
            None
        }
    }
}

/// What integrating a monomial over θ_v does, without reference to how the
/// sign is computed: it vanishes exactly when θ_v is absent; otherwise it
/// removes θ_v and keeps every other variable, with a sign ±1 that is +1
/// when θ_v is the first variable of the monomial.
pub proof fn lemma_berezin_term_shape(mask: u64, v: nat)
    requires
        v < 64,
    ensures
        berezin_term(mask, v) is None <==> !has_bit(mask, v),
        berezin_term(mask, v) matches Some((m, s)) ==> {
            &&& forall|i: nat| #[trigger] has_bit(m, i) == (has_bit(mask, i) && i != v)
            &&& s == 1 || s == -1
            &&& (forall|u: nat| u < v ==> !#[trigger] has_bit(mask, u)) ==> s == 1
        },
{
    if has_bit(mask, v) {
        let m = (mask ^ (1u64 << (v as u64))) as u64;
        assert forall|i: nat| #[trigger] has_bit(m, i) == (has_bit(mask, i) && i != v) by {
            if i < 64 {
                lemma_bit_or_and(mask, 1u64 << (v as u64), i);
                lemma_single_bit(v, i);
            }
        }
        if forall|u: nat| u < v ==> !#[trigger] has_bit(mask, u) {
            lemma_no_bits_below_count(mask, v);
        }
    }
}

/// The sign rule of Berezin integration: moving θ_v to the front past one
/// more variable θ_u (u < v) flips the sign. Together with the sign +1 for a
/// θ_v in front, the sign is (-1)^(number of variables before θ_v).
pub proof fn lemma_berezin_term_sign_flips(mask: u64, v: nat, u: nat)
    requires
        v < 64,
        u < v,
        has_bit(mask, v),
        !has_bit(mask, u),
    ensures
        berezin_term((mask | (1u64 << (u as u64))) as u64, v) matches Some((_, s2)) && berezin_term(
            mask,
            v,
        ) matches Some((_, s1)) && s2 == -s1,
{
    let with_u = (mask | (1u64 << (u as u64))) as u64;
    lemma_bit_or_and(mask, 1u64 << (u as u64), v);
    lemma_count_add_bit(mask, u, v);
    assert(has_bit(with_u, v));
}

/// Integrating over θ_v first moves θ_v to the front of the monomial: the
/// sign is the Koszul sign of θ_v ∧ (the rest of the monomial).
pub proof fn lemma_berezin_term_is_koszul(mask: u64, v: nat)
    requires
        v < 64,
        has_bit(mask, v),
    ensures
        berezin_term(mask, v) matches Some((m, s)) && s == koszul(64, 1u64 << (v as u64), m),
{
    let b = 1u64 << (v as u64);
    let m = (mask ^ b) as u64;
    assert((mask & b) != 0u64);
    let sh = v as u64;
    assert(((mask & (1u64 << sh)) != 0u64) ==> (mask ^ (1u64 << sh)) | (1u64 << sh) == mask && (
    mask ^ (1u64 << sh)) & (1u64 << sh) == 0u64) by (bit_vector)
        requires
            sh < 64,
    ;
    assert(!has_bit(m, v));
    lemma_count_add_bit(m, v, v);
    lemma_inversions_single(v, m, 64);
}

proof fn lemma_no_bits_below_count(m: u64, k: nat)
    requires
        forall|i: nat| i < k ==> !#[trigger] has_bit(m, i),
    ensures
        count_below(m, k) == 0,
    decreases k,
{
    if k > 0 {
        lemma_no_bits_below_count(m, (k - 1) as nat);
    }
}

/// Integrating over θ₀, ..., θ_{k-1} in turn succeeds exactly when the
/// monomial contains all of them; the sign is then +1 and what remains is
/// the monomial with those variables removed.
proof fn lemma_berezin_iterated_shape(mask: u64, k: nat)
    requires
        k <= 64,
    ensures
        berezin_iterated(mask, k) is Some <==> (forall|i: nat| i < k ==> #[trigger] has_bit(mask, i)),
        berezin_iterated(mask, k) matches Some((m, s)) ==> s == 1 && forall|i: nat|
            #[trigger] has_bit(m, i) == (i >= k && has_bit(mask, i)),
    decreases k,
{
    if k > 0 {
        let v = (k - 1) as nat;
        lemma_berezin_iterated_shape(mask, v);
        match berezin_iterated(mask, v) {
            None => {
                assert(!(forall|i: nat| i < v ==> #[trigger] has_bit(mask, i)));
            },
            Some((m, s)) => {
                if has_bit(m, v) {
                    let m2 = (m ^ (1u64 << (v as u64))) as u64;
                    assert forall|i: nat| #[trigger] has_bit(m2, i) == (i >= k && has_bit(mask, i)) by {
                        if i < 64 {
                            lemma_bit_or_and(m, 1u64 << (v as u64), i);
                            lemma_single_bit(v, i);
                        }
                    }
                    lemma_no_bits_below_count(m, v);
                    assert(berezin_iterated(mask, k) == Some((m2, 1int)));
                } else {
                    assert(!has_bit(mask, v));
                }
            },
        }
    }
}

/// Full Berezin integration by iterated integration over θ₀, ..., θ_{n-1}
/// picks out exactly the top monomial θ₀θ₁...θ_{n-1}, with sign +1:
/// ∫ θ₀θ₁...θ_{n-1} dθ_{n-1}...dθ₀ = 1, and every other monomial integrates
/// to a non-constant remainder or to nothing. Iterated integration therefore
/// agrees with reading off the top coefficient.
pub proof fn lemma_iterated_integration_picks_top(mask: u64, n: nat)
    requires
        n < 64,
    ensures
        berezin_iterated(low_mask(n), n) == Some((0u64, 1int)),
        (berezin_iterated(mask, n) matches Some((m, _)) && m == 0) <==> mask == low_mask(n),
{
    lemma_low_mask_bits_exact(n);
    lemma_berezin_iterated_shape(low_mask(n), n);
    lemma_berezin_iterated_shape(mask, n);
    match berezin_iterated(low_mask(n), n) {
        Some((m, s)) => {
            assert forall|i: nat| i < 64 implies #[trigger] has_bit(m, i) == has_bit(0u64, i) by {
                let t = i as u64;
                assert((0u64 & (1u64 << t)) == 0u64) by (bit_vector);
            }
            lemma_bits_extensional(m, 0u64);
        },
        None => {
            assert(has_bit(low_mask(n), 0));
        },
    }
    match berezin_iterated(mask, n) {
        Some((m, s)) => {
            if m == 0 {
                assert forall|i: nat| i < 64 implies #[trigger] has_bit(mask, i) == has_bit(
                    low_mask(n),
                    i,
                ) by {
                    let t = i as u64;
                    assert((0u64 & (1u64 << t)) == 0u64) by (bit_vector);
                    assert(!has_bit(m, i));
                }
                lemma_bits_extensional(mask, low_mask(n));
            }
        },
        None => {},
    }
}

/// The constant left by integrating the table `terms` (monomial, coefficient)
/// over θ₀, then θ₁, ..., then θ_{n-1}, term by term.
pub open spec fn iterated_constant(terms: Seq<(u64, int)>, n: nat) -> int
    decreases terms.len(),
{
    if terms.len() == 0 {
        0
    } else {
        iterated_constant(terms.drop_last(), n) + match berezin_iterated(terms.last().0, n) {
            Some((m, s)) => if m == 0 {
                s * terms.last().1
            } else {
                0
            },
            None => 0,
        }
    }
}

/// The coefficient of the top monomial θ₀θ₁...θ_{n-1} in the table `terms`.
pub open spec fn top_coefficient(terms: Seq<(u64, int)>, n: nat) -> int
    decreases terms.len(),
{
    if terms.len() == 0 {
        0
    } else {
        top_coefficient(terms.drop_last(), n) + if terms.last().0 == low_mask(n) {
            terms.last().1
        } else {
            0
        }
    }
}

/// Iterated Berezin integration of a whole coefficient table equals reading
/// off its top coefficient: ∫ f dθ_{n-1}...dθ₀ taken one variable at a time
/// gives the coefficient of θ₀θ₁...θ_{n-1}.
pub proof fn lemma_iterated_equals_direct(terms: Seq<(u64, int)>, n: nat)
    requires
        n < 64,
    ensures
        iterated_constant(terms, n) == top_coefficient(terms, n),
    decreases terms.len(),
{
    if terms.len() > 0 {
        lemma_iterated_equals_direct(terms.drop_last(), n);
        lemma_iterated_integration_picks_top(terms.last().0, n);
        if terms.last().0 == low_mask(n) {
            assert(1 * terms.last().1 == terms.last().1);
        }
    }
}

} // verus!
