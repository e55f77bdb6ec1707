//! Elliptic curve arithmetic over prime fields, in short Weierstrass form
//! y² = x³ + ax + b over GF(p): point addition, scalar multiplication, order
//! computation, point compression and decompression.
pub mod cancellation;
pub mod curve;
pub mod laws;
pub mod listing;
pub mod modular;
pub mod residues;

pub use crate::curve::{EllipticCurve, Point};
pub use crate::modular::{extended_gcd, mod_inverse, mod_pow, mod_sqrt};
