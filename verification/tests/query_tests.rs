//! Primality queries, iteration and nth-prime lookup.

use prime_data::{PrimeData, is_prime, count_primes};

#[test]
fn module_is_prime() {
    assert!(is_prime(65_537));
    assert!(!is_prime(4_294_967_297)); // 641 * 6700417
    assert!(is_prime(2_027));
    assert!(is_prime(2));
    assert!(is_prime(3));
    assert!(is_prime(5));
    assert!(is_prime(7));
    assert!(!is_prime(0));
    assert!(!is_prime(1));
    assert!(!is_prime(49));
    assert!(!is_prime(9991)); // 97 * 103
    // composites whose prime factors all lie outside [7, isqrt(x)]
    assert!(!is_prime(4));
    assert!(!is_prime(9));
    assert!(!is_prime(22));
    assert!(!is_prime(25));
    assert!(!is_prime(33));
    assert!(!is_prime(64));
    assert!(!is_prime(100));
}

#[test]
fn module_count_primes() {
    assert_eq!(count_primes(1_000), 168);
    assert_eq!(count_primes(100_000), 9592);
    assert_eq!(count_primes(0), 0);
    assert_eq!(count_primes(1), 0);
    assert_eq!(count_primes(2), 1);
}

#[test]
fn store_is_prime_in_range() {
    let data = PrimeData::generate(0..=900);
    assert!(data.is_prime(727));
    assert!(!data.is_prime(781)); // 11 * 71
    assert!(data.is_prime(2));
    assert!(data.is_prime(3));
    assert!(data.is_prime(5));
    assert!(!data.is_prime(0));
    assert!(!data.is_prime(1));
    assert!(!data.is_prime(900));
}

#[test]
fn store_is_prime_out_of_range_errors() {
    let data = PrimeData::generate(0..=900);
    // 907 is prime, but it is not in the range
    match data.try_is_prime(907) {
        Err(e) => match e.error {
            prime_data::error::ErrorType::OutOfBounds(v) => assert_eq!(v, 907),
            _ => panic!("expected an out-of-bounds error"),
        },
        Ok(_) => panic!("a value outside the range must be rejected"),
    }
}

#[test]
fn check_prime_beyond_range() {
    let data = PrimeData::generate(7..=35);
    assert!(data.check_prime(7)); // answered from the bit
    assert!(!data.check_prime(35)); // answered from the bit
    assert!(data.check_prime(1123)); // answered by trial division
    assert!(!data.check_prime(1225)); // 35 * 35, answered by trial division
}

#[test]
fn check_prime_small_factors_beyond_range() {
    // composites whose prime factors all lie outside [7, isqrt(x)] still
    // fall to the divisibility tests against 2, 3 and 5
    let data = PrimeData::generate(0..=5);
    assert!(!data.try_check_prime(22).unwrap()); // 2 * 11
    assert!(!data.try_check_prime(9).unwrap()); // 3 * 3
    assert!(!data.try_check_prime(25).unwrap()); // 5 * 5
    assert!(data.try_check_prime(23).unwrap());
}

#[test]
fn check_prime_without_witnesses_errors() {
    let data = PrimeData::generate(7..=35);
    // isqrt(10000) = 100 > 35, and 10000 is not in range
    assert!(data.try_check_prime(10_000).is_err());
}

#[test]
fn iterate_subrange() {
    let data = PrimeData::generate(0..=1000);
    let mut iter = data.iter(472..=491);
    assert_eq!(iter.next(), Some(479));
    assert_eq!(iter.next(), Some(487));
    assert_eq!(iter.next(), Some(491));
    assert_eq!(iter.next(), None);
}

#[test]
fn iterate_prime_gap() {
    // the biggest gap below 1000 lies between 887 and 907
    let data = PrimeData::generate(0..=1000);
    let mut iter = data.iter(888..=906);
    assert_eq!(iter.next(), None);
}

#[test]
fn iterate_from_base_block() {
    let data = PrimeData::new();
    let mut iter = prime_data::PrimeIter::new(&data, 3..=27).unwrap();
    assert_eq!(iter.next(), Some(3));
    assert_eq!(iter.next(), Some(5));
    assert_eq!(iter.next(), Some(7));
    assert_eq!(iter.next(), Some(11));
    assert_eq!(iter.next(), Some(13));
    assert_eq!(iter.next(), Some(17));
    assert_eq!(iter.next(), Some(19));
    assert_eq!(iter.next(), Some(23));
    assert_eq!(iter.next(), None);
}

#[test]
fn iterate_all_of_narrow_store() {
    let data = PrimeData::generate(472..=491);
    let primes: Vec<u64> = data.iter_all().collect_remaining();
    assert_eq!(primes, vec![479, 487, 491]);
}

#[test]
fn try_iter_out_of_range_errors() {
    let data = PrimeData::generate(0..=100);
    assert!(data.try_iter(0..=101).is_err());
    assert!(data.try_iter(0..=100).is_ok());
}

#[test]
fn nth_primes() {
    let data = PrimeData::generate(7..=105_000);
    assert_eq!(data.nth_prime(1), 2);
    assert_eq!(data.nth_prime(2), 3);
    assert_eq!(data.nth_prime(3), 5);
    assert_eq!(data.nth_prime(4), 7);
    assert_eq!(data.nth_prime(19), 67);
    assert_eq!(data.nth_prime(100), 541);
    assert_eq!(data.nth_prime(1000), 7919);
    assert_eq!(data.nth_prime(10_001), 104_743);
}

#[test]
fn nth_prime_counts_implicit_small_primes() {
    // the store's bits hold only 7 and 11, but 2, 3 and 5 precede them
    let data = PrimeData::generate(7..=11);
    assert_eq!(data.try_nth_prime(4).unwrap(), 7);
    assert_eq!(data.try_nth_prime(5).unwrap(), 11);
    assert!(data.try_nth_prime(6).is_err());
}

#[test]
fn nth_prime_zero_is_out_of_bounds() {
    let data = PrimeData::generate(0..=1000);
    match data.try_nth_prime(0) {
        Err(e) => match e.error {
            prime_data::error::ErrorType::OutOfBounds(v) => assert_eq!(v, 0),
            _ => panic!("expected an out-of-bounds error"),
        },
        Ok(_) => panic!("the zeroth prime is undefined"),
    }
}

#[test]
fn nth_prime_needs_enough_data() {
    // the store holds only 25 primes, so the 26th cannot be found
    let data = PrimeData::generate(0..=100);
    assert!(data.try_nth_prime(26).is_err());
    assert_eq!(data.try_nth_prime(25).unwrap(), 97);
    // a store starting after 7 cannot count from the beginning
    let late = PrimeData::generate(50..=1000);
    assert!(late.try_nth_prime(10).is_err());
}
