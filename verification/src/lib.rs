//! Supergeometry: Z₂-graded (super) algebra with verified sign rules,
//! exterior algebra on bitmask monomials, supermanifold and supervector
//! dimensions, Berezin integration bookkeeping and fermionic exclusion.

pub mod agent_state;
pub mod berezin;
pub mod bits;
pub mod exterior;
pub mod graded;
pub mod labels;
pub mod superform;
pub mod supermanifold;
pub mod supervector;

pub use berezin::BerezinIntegrator;
pub use exterior::ExteriorAlgebra;
pub use supermanifold::Supermanifold;
pub use supervector::SuperVectorSpace;
pub use graded::{homogeneous_parity, super_sign, Parity};
