//! The compressed block, the coprime-30 iterator and the estimates.

use prime_data::{PrimeByte, CoprimeIter, K_VALUES, estimate};

#[test]
fn k_values_table() {
    assert_eq!(K_VALUES, [1, 7, 11, 13, 17, 19, 23, 29]);
}

#[test]
fn byte_starts_full() {
    let byte = PrimeByte::new();
    assert_eq!(byte.as_u8(), 0b11111111);
    assert_eq!(byte.count_primes(), 8);
}

#[test]
fn byte_set_nonprime() {
    let mut byte = PrimeByte::from_u8(0b10110111);
    // k-value 1 corresponds to the first bit, which is set
    assert!(byte.set_nonprime(1).unwrap());
    assert_eq!(byte.as_u8(), 0b00110111);
    // clearing an already-clear bit reports no change
    assert!(!byte.set_nonprime(1).unwrap());
    // a value that is no k-value is rejected
    assert!(byte.set_nonprime(4).is_err());
}

#[test]
fn byte_queries() {
    let byte = PrimeByte::from_u8(0b00101000);
    assert!(byte.is_prime(11));
    assert!(!byte.is_prime(13));
    assert!(byte.is_prime(17));
    assert!(!byte.is_prime(2)); // not a k-value
    assert!(!byte.is_prime(30)); // not a k-value
}

#[test]
fn byte_boolean_array() {
    let byte = PrimeByte::from_u8(0b10100110);
    assert_eq!(
        byte.as_boolean_array(),
        [true, false, true, false, false, true, true, false]
    );
}

#[test]
fn byte_k_value_extraction() {
    let byte = PrimeByte::from_u8(0b10100110);
    assert_eq!(byte.as_k_values(), vec![1, 11, 19, 23]);
    assert_eq!(byte.as_k_values_in_range(2..=23), vec![11, 19, 23]);
    assert_eq!(byte.as_primes(21), vec![631, 641, 649, 653]);
    assert_eq!(byte.as_primes_in_range(21, 2..=23), vec![641, 649, 653]);
}

#[test]
fn byte_counting() {
    let byte = PrimeByte::from_u8(0b11010111);
    assert_eq!(byte.count_primes(), 6);
    assert_eq!(byte.count_primes_in_range(0..=30), 6);
    assert_eq!(byte.count_primes_in_range(2..=30), 5);
    assert_eq!(byte.count_primes_in_range(8..=12), 0);
}

#[test]
fn byte_overwrite() {
    let mut original = PrimeByte::from_u8(0b00000000);
    let new_bits = PrimeByte::from_u8(0b11111111);
    original.overwrite_at(new_bits, 5);
    assert_eq!(original.as_u8(), 0b00000111);
    let mut whole = PrimeByte::from_u8(0b01010101);
    whole.overwrite_at(PrimeByte::from_u8(0b10101010), 0);
    assert_eq!(whole.as_u8(), 0b10101010);
}

#[test]
fn byte_matches_in_range() {
    let byte = PrimeByte::from_u8(0b10111010);
    let other = PrimeByte::from_u8(0b10110111);
    assert!(byte.matches_in_range(other, 0..=14));
    assert!(byte.matches_in_range(other, 23..=23));
    assert!(!byte.matches_in_range(other, 16..=17));
    // no k-value lies in this range, so the bytes trivially match
    assert!(byte.matches_in_range(other, 30..=255));
}

#[test]
fn coprime_iteration() {
    let mut iter = CoprimeIter::new(8..=22);
    assert_eq!(iter.next(), Some(11));
    assert_eq!(iter.next(), Some(13));
    assert_eq!(iter.next(), Some(17));
    assert_eq!(iter.next(), Some(19));
    assert_eq!(iter.next(), None);
}

#[test]
fn coprime_iteration_from_zero() {
    let mut iter = CoprimeIter::new(0..=31);
    assert_eq!(iter.next(), Some(1));
    assert_eq!(iter.next(), Some(7));
    assert_eq!(iter.next(), Some(11));
    assert_eq!(iter.next(), Some(13));
    assert_eq!(iter.next(), Some(17));
    assert_eq!(iter.next(), Some(19));
    assert_eq!(iter.next(), Some(23));
    assert_eq!(iter.next(), Some(29));
    assert_eq!(iter.next(), Some(31));
    assert_eq!(iter.next(), None);
}

#[test]
fn estimate_exact_count() {
    assert_eq!(estimate::exact_count(1_000), 168);
    assert_eq!(estimate::exact_count(0), 0);
}

#[test]
fn estimate_upper_bound() {
    // exact up to ten thousand
    assert_eq!(estimate::upper_bound(1_000), 168);
    assert_eq!(estimate::upper_bound(10_000), 1229);
    // an upper bound beyond, within half a percent
    let pi5 = 9592u64;
    let ub5 = estimate::upper_bound(100_000);
    assert!(ub5 >= pi5);
    assert!(ub5 <= pi5 + pi5 / 200);
    let pi6 = 78_498u64;
    let ub6 = estimate::upper_bound(1_000_000);
    assert!(ub6 >= pi6);
    assert!(ub6 <= pi6 + pi6 / 200);
}

#[test]
fn estimate_nth_prime_window() {
    // the first three primes come back exactly
    assert_eq!(estimate::nth_prime_approximation(1), 2);
    assert_eq!(estimate::nth_prime_approximation(2), 3);
    assert_eq!(estimate::nth_prime_approximation(3), 5);
    // below the ten-thousandth prime the window is a fixed interval
    let small = estimate::nth_prime_bounds(9_999);
    assert_eq!((*small.start(), *small.end()), (0, 104_723));
    // beyond it, the window must contain the true nth prime
    let window = estimate::nth_prime_bounds(10_001);
    assert!(*window.start() <= 104_743 && 104_743 <= *window.end());
    let window5 = estimate::nth_prime_bounds(100_000);
    assert!(*window5.start() <= 1_299_709 && 1_299_709 <= *window5.end());
}
