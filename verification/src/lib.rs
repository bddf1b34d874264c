//! Point compression and decompression for short-Weierstrass elliptic curves
//! over a prime field, built on a verified Tonelli-Shanks modular square root.

pub mod field;
pub mod legendre;
pub mod primes;
pub mod sqrt;
pub mod curve;

pub use curve::ECPoint;
pub use curve::EllipticCurve;
pub use field::Fe;
pub use sqrt::modular_sqrt;
pub use legendre::legendre_symbol;
pub use legendre::Legendre;
