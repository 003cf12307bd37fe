//! Prime-field and elliptic-curve arithmetic: field elements modulo a prime,
//! the extended Euclidean algorithm behind field inversion, and the group law
//! on curve points held in projective coordinates.
use vstd::prelude::*;

pub mod extended_euclidean;
pub mod field;
pub mod curve;

pub use curve::{Affine, Curve, CurvePoint, Projective};
pub use extended_euclidean::{extended_euclidean, EuclideanResult};
pub use field::{Binary, Field, PrimeField};

verus! {

} // verus!
