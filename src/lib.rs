//! Finite-field and elliptic-curve arithmetic: prime fields, extension towers defined by a
//! reduction rule, the curve group law over any such field, double-and-add scalar
//! multiplication, the Frobenius map and twisting.
use vstd::prelude::*;

pub mod prime_field;
pub mod tower;
pub mod curve;
pub mod projective;
pub mod closure;
pub mod fermat;
pub mod tower_laws;

verus! {

} // verus!
