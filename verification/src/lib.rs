//! Prime factorization of 32-bit unsigned integers.
//!
//! The core is a hybrid algorithm: trial division strips the small prime
//! factors, and Pollard's rho (Brent's variant, with batched gcd) splits
//! what remains, consulting a primality oracle to decide when recursion
//! stops. Every returned [`Factorization`] is proved to multiply back to
//! its input, to carry only prime keys, and to keep those keys in strictly
//! increasing order.

pub mod arith;
pub mod factorization;
pub mod factor;

pub use crate::factor::{factor, largest_prime_factor, FactorError};
pub use crate::factorization::Factorization;
