//! Generation and compressed storage of prime numbers.
//!
//! Primality over an integer range is stored one bit per candidate, where the
//! candidates are the integers coprime with 30 (eight per block of thirty
//! consecutive integers).  A [`PrimeData`] store is built by a segmented
//! sieve that bootstraps itself from the primes below the square root of the
//! target bound, and answers primality, counting, nth-prime and factorization
//! queries.  Every well-formed store's bits provably agree with the
//! mathematical definition of primality in [`theory`], and every public
//! operation carries a contract stated against that definition.

use vstd::prelude::*;

pub mod theory;
pub mod utils;
pub mod data;
pub mod laws;

pub use crate::data::prime_byte::PrimeByte;
pub use crate::data::coprime::CoprimeIter;
pub use crate::data::error::{PrimeResult, PrimeError};
pub use crate::data::error;
pub use crate::data::prime_data::PrimeData;
pub use crate::data::estimate;
pub use crate::data::prime_iter::PrimeIter;
pub use crate::data::factors::{Factorization, all_factors_of};

verus! {

use crate::theory::{prime_count, is_prime_spec};
use crate::utils::arithmetic::IntSqrt;

/// A list of all values `N % 30`, where N is coprime with 2, 3, and 5
///
/// These values are: {1, 7, 11, 13, 17, 19, 23, 29}
pub const K_VALUES: [u8; 8] = [1, 7, 11, 13, 17, 19, 23, 29];

/// Verifies if `x` is a prime number
///
/// Builds prime data up to the integer square root of `x`, then checks `x`
/// against it with [`PrimeData::check_prime`]: the answer is true primality
/// for every input.
pub fn is_prime(x: u64) -> (r: bool)
    ensures
        r == is_prime_spec(x as int),
{
    let sqrt = x.sqrt_floor();
    let data = PrimeData::generate(core::ops::RangeInclusive::new(0, sqrt));
    data.check_prime(x)
}

/// Counts how many prime numbers are there less than or equal to `x`
///
/// Generates prime data covering `[0, x]`, then counts its primes.
pub fn count_primes(x: u64) -> (r: u64)
    ensures
        r as int == prime_count(2, x as int),
{
    proof {
        crate::theory::lemma_prime_count_from_zero(x as int);
    }
    PrimeData::generate(core::ops::RangeInclusive::new(0, x)).count_primes()
}

} // verus!
