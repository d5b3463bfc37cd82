//! The prime storage core: compressed blocks, the store itself, its
//! iterators, errors, estimates and factorization.

pub mod prime_byte;
pub mod coprime;
pub mod error;
pub mod prime_data;
pub mod estimate;
pub mod prime_iter;
pub mod factors;
