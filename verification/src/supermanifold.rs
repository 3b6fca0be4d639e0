//! Supermanifolds of dimension (p|q): p even (bosonic) and q odd
//! (fermionic) coordinates; functions are C^∞(ℝᵖ) ⊗ Λ(θ₁, ..., θ_q).

use vstd::prelude::*;
use vstd::arithmetic::power2::pow2;
use crate::labels::{index_label, labels_or_default};

verus! {

/// A supermanifold of dimension (p|q).
#[derive(Debug, Clone)]
pub struct Supermanifold {
    /// Bosonic dimension.
    pub p: usize,
    /// Fermionic dimension.
    pub q: usize,
    pub bosonic_coords: Vec<String>,
    pub fermionic_coords: Vec<String>,
}

impl Supermanifold {
    /// A (p|q) supermanifold; coordinates are the given names when there is
    /// one per dimension, `x0, x1, ...` and `θ0, θ1, ...` otherwise.
    pub fn new(p: usize, q: usize, bosonic: Vec<String>, fermionic: Vec<String>) -> (m: Self)
        ensures
            m.p == p,
            m.q == q,
            bosonic.len() == p ==> m.bosonic_coords@ == bosonic@,
            bosonic.len() != p ==> m.bosonic_coords.len() == p && forall|i: int|
                0 <= i < p ==> (#[trigger] m.bosonic_coords@[i])@ == index_label("x"@, i as nat),
            fermionic.len() == q ==> m.fermionic_coords@ == fermionic@,
            fermionic.len() != q ==> m.fermionic_coords.len() == q && forall|i: int|
                0 <= i < q ==> (#[trigger] m.fermionic_coords@[i])@ == index_label(
                    "θ"@,
                    i as nat,
                ),
    {
        let bosonic_coords = labels_or_default(bosonic, "x", p);
        let fermionic_coords = labels_or_default(fermionic, "θ", q);
        Supermanifold { p, q, bosonic_coords, fermionic_coords }
    }

    /// Total dimension of the function space: 2^q components (one per
    /// θ-monomial) for each point in ℝᵖ.
    pub fn function_dimension(&self) -> (d: usize)
        requires
            self.q < usize::BITS,
        ensures
            d == pow2(self.q as nat),
    {
        proof {
            vstd::bits::lemma_usize_pow2_no_overflow(self.q as nat);
            vstd::bits::lemma_usize_shl_is_mul(1, self.q);
        }
        1usize << self.q
    }

    /// Number of independent component functions in the coordinate ring
    /// expansion f(x, θ) = Σ f_I(x) θ^I: 2^q.
    pub fn ring_rank(&self) -> (r: usize)
        requires
            self.q < usize::BITS,
        ensures
            r == pow2(self.q as nat),
    {
        proof {
            vstd::bits::lemma_usize_pow2_no_overflow(self.q as nat);
            vstd::bits::lemma_usize_shl_is_mul(1, self.q);
        }
        1usize << self.q
    }
}

} // verus!
