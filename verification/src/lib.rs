//! Arithmetic on the points of a short-Weierstrass curve `y^2 = x^3 + a*x + b`
//! over the integers modulo a prime: primality of the field characteristic,
//! modular inverses, curve membership, enumeration of the curve and the
//! chord-and-tangent sum of two points.
//!
//! Every contract is stated over mathematical integers, so the results hold
//! for the whole range of `u128`.

pub mod addition;
pub mod boundary;
pub mod curve;
pub mod enumeration;
pub mod euclid;
pub mod modular;
pub mod primality;

pub use crate::addition::point_addition;
pub use crate::boundary::{checked_curve, sum_on_curve, ParameterError, SumOutcome};
pub use crate::curve::{is_on_curve, EllipticCurve, Point};
pub use crate::enumeration::generate_curve;
pub use crate::euclid::{extended_euclidean, mod_inverse};
pub use crate::primality::is_prime;
