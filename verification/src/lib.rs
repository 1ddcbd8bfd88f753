//! Number-theoretic primitives over the unsigned 32-bit integers: a primality
//! test, bounded searches for primes and the enumeration of divisors.

mod entropy;
pub mod factor;
pub mod primality;
pub mod prime;
pub mod ranges;
pub mod util;
