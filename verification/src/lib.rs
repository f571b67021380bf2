//! Exact arithmetic in finite fields of prime order, and the group law of
//! points on short-Weierstrass elliptic curves `y^2 = x^3 + a*x + b`.
//!
//! Every executable function carries a contract stated over mathematical
//! integers, and the algebraic laws of the two layers are proved alongside:
//!
//! - [`fieldelement`] holds field elements, their arithmetic, and the laws
//!   of zero, one, division and exponents;
//! - [`ellipticcurvepoint`] holds curve points over any coordinate domain,
//!   their addition, and the laws of the identity and of inverses;
//! - [`prime_curve`] shows that over a prime field every sum exists and
//!   does not depend on the order of the summands;
//! - [`group_law`] shows that addition is associative on curves without
//!   singular points, with [`associativity`] for its algebra;
//! - [`primes`] proves Fermat's little theorem, on which division rests.

pub mod error;
pub mod number_theory;
pub mod primes;
pub mod modular;
pub mod coordinate;
pub mod fieldelement;
pub mod ellipticcurvepoint;
pub mod prime_curve;
pub mod associativity;
pub mod group_law;

pub use coordinate::Coordinate;
pub use ellipticcurvepoint::{EllipticCurvePoint, PointValue};
pub use error::MathError;
pub use fieldelement::{FieldElement, FieldValue};
pub use modular::{DivInFiniteField, FieldInt, Pow};
