//! Factorization and divisor listing.

use prime_data::{PrimeData, Factorization, all_factors_of};

#[test]
fn all_factors_of_small_numbers() {
    assert_eq!(all_factors_of(1), vec![1]);
    assert_eq!(all_factors_of(3), vec![1, 3]);
    assert_eq!(all_factors_of(6), vec![1, 2, 3, 6]);
    assert_eq!(all_factors_of(30), vec![1, 2, 3, 5, 6, 10, 15, 30]);
    assert_eq!(all_factors_of(490), vec![1, 2, 5, 7, 10, 14, 35, 49, 70, 98, 245, 490]);
}

#[test]
fn all_factors_length_law() {
    // length 1 exactly for 1, length 2 exactly for primes
    assert_eq!(all_factors_of(1).len(), 1);
    assert_eq!(all_factors_of(2).len(), 2);
    assert_eq!(all_factors_of(97).len(), 2);
    assert_eq!(all_factors_of(4).len(), 3);
    assert_eq!(all_factors_of(961).len(), 3); // 31 * 31
    assert_eq!(all_factors_of(120).len(), 16);
}

#[test]
fn factorization_round_trip() {
    for x in [1u64, 2, 12, 44, 97, 120, 43_560, 104_729, 29_375_346] {
        assert_eq!(Factorization::from(x).as_u64(), x);
    }
}

#[test]
fn factorization_tuples() {
    // 43560 = 2^3 * 3^2 * 5 * 11^2
    let factorization = Factorization::from(43_560);
    assert_eq!(factorization.as_tuples(), vec![(2, 3), (3, 2), (5, 1), (11, 2)]);
    // a prime factorizes as itself to the first power
    assert_eq!(Factorization::from(104_729).as_tuples(), vec![(104_729, 1)]);
    // 1 factorizes into nothing
    assert_eq!(Factorization::from(1).as_tuples(), vec![]);
}

#[test]
fn factorize_through_a_store() {
    let data = PrimeData::generate(0..=12);
    let factors = data.factorize(120);
    assert_eq!(factors.as_u64(), 120);
    assert_eq!(factors.as_tuples(), vec![(2, 3), (3, 1), (5, 1)]);
    let all = factors.all_factors();
    assert_eq!(all.len(), 16);
    assert_eq!(all[0], 1);
    assert_eq!(all[15], 120);
}

#[test]
fn factorize_needs_coverage() {
    // factorizing 120 needs the primes up to isqrt(120) = 10
    let narrow = PrimeData::generate(0..=3);
    assert!(narrow.try_factorize(120).is_err());
    let late = PrimeData::generate(3..=100);
    assert!(late.try_factorize(120).is_err());
}

#[test]
fn factorize_residual_prime_cofactor() {
    // 299 = 13 * 23, and 23 exceeds isqrt(299) = 17
    let data = PrimeData::generate(0..=17);
    let factors = data.factorize(299);
    assert_eq!(factors.as_tuples(), vec![(13, 1), (23, 1)]);
}
