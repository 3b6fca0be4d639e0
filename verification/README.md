# lau-supergeometry

Z₂-graded algebra for supergeometry, written in Verus.

`src/` is the verified library:

- `graded`: parities, Z₂ addition, the sign (-1)^|p| and the exchange sign
  (-1)^(|a||b|), with the group and sign laws proved.
- `exterior`: the exterior algebra Λ(V) with monomials as bitmasks; the
  dimension 2^n, the form dimensions C(n, k) (their sum is 2^n), the wedge
  product and the Koszul sign, with graded commutativity, associativity,
  the unit and θ∧θ = 0 proved.
- `berezin`: Berezin integration of monomials; iterated integration picks out
  the top monomial with sign +1, so for a table of coefficients it equals
  reading off the top coefficient.
- `superform`: the terms and signs of the exterior derivative, proved to
  raise the degree by one and to satisfy d∘d = 0 (every monomial of d(dω)
  gets signed contributions summing to zero), the Koszul wedge sign (odd
  one-forms anticommute) and form degrees. Coefficients are real and are
  combined in `app/`.
- `supermanifold`, `supervector`: (p|q) dimensions and the block layout of
  supermatrices.
- `agent_state`: the fermionic exclusion check and the exclusion principle.
- `bits`, `labels`: bitmask counting and default labels.

`app/` holds what uses real numbers: graded elements, brackets and the super
Jacobi check, multiplication tables, superfunctions, superforms and Berezin
integrals with real coefficients, supermatrices with supertrace and the
Berezinian (nalgebra), agent states, and serde support.
