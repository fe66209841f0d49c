//! Progressive squares.
//!
//! A base `i` and a divisor `d` of its square, smaller than `i`, propose two
//! values: `d + i * (i * i / d)` and `i + d * (i * i / d)`. A square is
//! called progressive here when some base proposes it. The crate sums the
//! progressive squares up to a bound, and proves that the sum it returns is
//! that sum.
//!
//! The work is done in four steps, one module each:
//!
//! * `sieve` builds the table of smallest prime factors up to the root of
//!   the bound;
//! * `factorization` reads the prime factorization of a base off the table;
//! * `divisors` lists the divisors of the square of a base that are smaller
//!   than the base;
//! * `search` looks the proposed values up among the squares and adds up the
//!   ones it finds, each once.
//!
//! `divisibility` and `multiplicity` hold the number theory that the proofs
//! rest on, and `roots` the integer square root.

pub mod divisibility;
pub mod divisors;
pub mod factorization;
pub mod multiplicity;
pub mod roots;
pub mod search;
pub mod sieve;

pub use crate::divisors::small_square_divisors;
pub use crate::factorization::prime_factorization;
pub use crate::roots::integer_sqrt;
pub use crate::search::{progressive_square_sum, proposed_values};
pub use crate::sieve::smallest_prime_factors;
