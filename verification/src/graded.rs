//! Z₂ grading: the parity of an element and the sign rules it induces.

use vstd::prelude::*;

verus! {

/// Parity (Z₂ grade): Even or Odd.
#[derive(Debug, Clone, Copy, PartialEq, Eq, Hash, Structural)]
pub enum Parity {
    Even,
    Odd,
}

impl Parity {
    /// The grade as a natural number: 0 for even, 1 for odd.
    pub open spec fn grade_nat(self) -> nat {
        match self {
            Parity::Even => 0,
            Parity::Odd => 1,
        }
    }

    /// The parity whose grade is `g mod 2`.
    pub open spec fn from_grade(g: nat) -> Parity {
        if g % 2 == 0 {
            Parity::Even
        } else {
            Parity::Odd
        }
    }

    /// Z₂ addition of grades.
    pub open spec fn sum(self, other: Parity) -> Parity {
        Parity::from_grade(self.grade_nat() + other.grade_nat())
    }

    /// The sign factor (-1)^|p|.
    pub open spec fn sign_int(self) -> int {
        if self.grade_nat() == 0 {
            1
        } else {
            -1
        }
    }

    /// Z₂ addition (XOR).
    pub fn combine(self, other: Parity) -> (r: Parity)
        ensures
            r == self.sum(other),
    {
        match (self, other) {
            (Parity::Even, Parity::Even) => Parity::Even,
            (Parity::Even, Parity::Odd) => Parity::Odd,
            (Parity::Odd, Parity::Even) => Parity::Odd,
            (Parity::Odd, Parity::Odd) => Parity::Even,
        }
    }

    /// (-1)^|p| sign factor.
    pub fn sign(self) -> (s: i64)
        ensures
            s == self.sign_int(),
    {
        match self {
            Parity::Even => 1,
            Parity::Odd => -1,
        }
    }

    /// Grade (0 for even, 1 for odd).
    pub fn grade(self) -> (g: u8)
        ensures
            g == self.grade_nat(),
    {
        match self {
            Parity::Even => 0,
            Parity::Odd => 1,
        }
    }
}


/// The exchange sign (-1)^(|a|·|b|) picked up when two homogeneous elements
/// are swapped.
pub open spec fn exchange_sign(a: Parity, b: Parity) -> int {
    if a.grade_nat() * b.grade_nat() == 1 {
        -1
    } else {
        1
    }
}

/// Sign factor (-1)^(|a|·|b|), computed from the grades.
pub fn super_sign(a: Parity, b: Parity) -> (s: i64)
    ensures
        s == exchange_sign(a, b),
{
    if a.grade() * b.grade() == 1 {
        -1
    } else {
        1
    }
}

/// The parity of a graded vector that has even components (`has_even`)
/// and odd components (`has_odd`): defined only when exactly one kind is
/// present; a mixed or zero vector has no parity.
pub fn homogeneous_parity(has_even: bool, has_odd: bool) -> (r: Option<Parity>)
    ensures
        r == (if has_even && !has_odd {
            Some(Parity::Even)
        } else if has_odd && !has_even {
            Some(Parity::Odd)
        } else {
            None::<Parity>
        }),
{
    match (has_even, has_odd) {
        (true, false) => Some(Parity::Even),
        (false, true) => Some(Parity::Odd),
        (true, true) | (false, false) => None,
    }
}

/// Z₂ addition is commutative and associative, has `Even` as identity and
/// makes every parity its own inverse: the parities form the group Z₂.
pub proof fn lemma_parity_group(a: Parity, b: Parity, c: Parity)
    ensures
        a.sum(b) == b.sum(a),
        a.sum(b).sum(c) == a.sum(b.sum(c)),
        a.sum(Parity::Even) == a,
        a.sum(a) == Parity::Even,
{
}

/// The sign (-1)^|p| is a homomorphism from Z₂ to {±1}:
/// the sign of a product is the product of the signs.
pub proof fn lemma_sign_multiplicative(a: Parity, b: Parity)
    ensures
        a.sum(b).sign_int() == a.sign_int() * b.sign_int(),
        a.sum(b).grade_nat() == (a.grade_nat() + b.grade_nat()) % 2,
{
}

/// The exchange sign is symmetric, is -1 exactly when both elements are odd,
/// and is multiplicative in each argument:
/// (-1)^(|a|·|b+c|) = (-1)^(|a|·|b|) · (-1)^(|a|·|c|).
pub proof fn lemma_exchange_sign(a: Parity, b: Parity, c: Parity)
    ensures
        exchange_sign(a, b) == exchange_sign(b, a),
        exchange_sign(a, b) == -1 <==> (a == Parity::Odd && b == Parity::Odd),
        exchange_sign(a, b.sum(c)) == exchange_sign(a, b) * exchange_sign(a, c),
        exchange_sign(Parity::Even, b) == 1,
{
}

} // verus!
