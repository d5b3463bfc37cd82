//! Generation, expansion and counting of prime stores.

use prime_data::PrimeData;

#[test]
fn new_matches_generate() {
    let new = PrimeData::new();
    let gen = PrimeData::generate(0..=30);
    assert_eq!(new.range(), gen.range());
    assert_eq!(new.count_primes(), gen.count_primes());
    assert_eq!(new.is_prime(29), gen.is_prime(29));
}

#[test]
fn generate_thirty() {
    let data = PrimeData::generate(0..=30);
    assert_eq!(data.count_primes(), 10);
    assert!(data.is_prime(29));
    assert!(!data.is_prime(1));
}

#[test]
fn generate_hundred() {
    let data = PrimeData::generate(0..=100);
    assert!(data.is_prime(2));
    assert!(!data.is_prime(49));
    assert_eq!(data.range(), (0, 100));
    assert_eq!(data.count_primes(), 25);
}

#[test]
fn generate_large_counts() {
    assert_eq!(PrimeData::generate(0..=1000).count_primes(), 168);
    assert_eq!(PrimeData::generate(0..=10_000).count_primes(), 1229);
    assert_eq!(PrimeData::generate(0..=100_000).count_primes(), 9592);
}

#[test]
fn generate_above_base_case() {
    // forces the recursive bootstrap (end > 900)
    let data = PrimeData::generate(0..=10_000);
    assert!(data.is_prime(9973));
    assert!(!data.is_prime(9991)); // 97 * 103
}

#[test]
fn generate_offset_range() {
    let expansion = PrimeData::generate(173..=244);
    assert_eq!(expansion.range(), (173, 244));
    assert!(expansion.is_prime(173));
    assert!(expansion.is_prime(241));
    assert!(!expansion.is_prime(221)); // 13 * 17
}

#[test]
fn generate_reversed_range_is_empty() {
    assert!(PrimeData::generate(31..=30).is_empty());
    assert!(!PrimeData::generate(29..=29).is_empty());
    assert!(!PrimeData::generate(17..=71).is_empty());
}

#[test]
fn expand_from_base() {
    let starter_data = PrimeData::new();
    let expanded_data = starter_data.expand(59..=90);
    let primes: Vec<u64> = expanded_data.iter_all().collect_remaining();
    assert_eq!(primes, vec![59, 61, 67, 71, 73, 79, 83, 89]);
}

#[test]
fn expand_requires_witnesses() {
    // expanding to 10000 needs primes up to 100, but the base block stops at 30
    let starter_data = PrimeData::new();
    let result = starter_data.try_expand(0..=10_000);
    match result {
        Err(e) => match e.error {
            prime_data::error::ErrorType::NotEnoughData(r) => {
                assert_eq!(*r.start(), 31);
                assert_eq!(*r.end(), 100);
            },
            _ => panic!("expected a missing-data error"),
        },
        Ok(_) => panic!("expansion without witnesses must fail"),
    }
}

#[test]
fn offsets() {
    let data = PrimeData::new();
    assert_eq!(data.expand(29..=100).offset(), 0);
    assert_eq!(data.expand(30..=100).offset(), 1);
    assert_eq!(data.expand(59..=100).offset(), 1);
}

#[test]
fn count_primes_in_subranges() {
    let data = PrimeData::new();
    assert_eq!(data.count_primes_in_range(0..=30), 10);
    assert_eq!(data.count_primes_in_range(2..=7), 4);
    assert_eq!(data.count_primes_in_range(2..=2), 1);
    assert_eq!(data.count_primes_in_range(24..=26), 0);
    assert_eq!(data.count_primes_in_range(30..=0), 0);
}

#[test]
fn count_block_boundaries() {
    // ranges whose start or end is an exact multiple of 30, and ranges
    // where neither bound is, all recount exactly
    let data = PrimeData::generate(0..=120);
    assert_eq!(data.count_primes_in_range(30..=60), 7); // 31..59
    assert_eq!(data.count_primes_in_range(0..=29), 10);
    assert_eq!(data.count_primes_in_range(0..=30), 10);
    assert_eq!(data.count_primes_in_range(29..=60), 8);
    assert_eq!(data.count_primes_in_range(30..=61), 8);
    assert_eq!(data.count_primes_in_range(31..=59), 7);
    assert_eq!(data.count_primes_in_range(60..=90), 7); // 61,67,71,73,79,83,89
    assert_eq!(data.count_primes_in_range(60..=120), 13);
    assert_eq!(data.count_primes_in_range(90..=90), 0);
    assert_eq!(data.count_primes_in_range(0..=120), 30);
}

#[test]
fn count_generation_order_independent() {
    // a freshly generated store and a wider pre-generated one agree
    let common = PrimeData::generate(0..=2_000);
    for n in [0u64, 1, 2, 10, 29, 30, 31, 100, 897, 900, 901, 1000, 1999] {
        let direct = PrimeData::generate(0..=n).count_primes();
        assert_eq!(common.count_primes_in_range(0..=n), direct);
    }
}

#[test]
fn count_out_of_store_errors() {
    let data = PrimeData::generate(0..=100);
    assert!(data.try_count_primes_in_range(0..=101).is_err());
    assert!(data.try_count_primes_in_range(0..=100).is_ok());
    let wide = PrimeData::generate(50..=100);
    assert!(wide.try_count_primes_in_range(49..=60).is_err());
}

#[test]
fn known_pi_values() {
    let data = PrimeData::generate(0..=1_000);
    let table = [
        (10u64, 4u64),
        (25, 9),
        (100, 25),
        (168, 39),
        (541, 100),
        (543, 100),
        (997, 168),
        (1000, 168),
    ];
    for &(n, pi) in table.iter() {
        assert_eq!(data.count_primes_in_range(0..=n), pi);
        assert_eq!(PrimeData::generate(0..=n).count_primes(), pi);
    }
}

#[test]
fn known_range_counts() {
    let data = PrimeData::generate(0..=1_000);
    // pi(m) - pi(n) + [n prime]
    let entries = [
        (2u64, 10u64, 4u64),
        (3, 89, 23),
        (7, 7, 1),
        (8, 9, 0),
        (114, 126, 0),
        (500, 1000, 73),
    ];
    for &(n, m, expected) in entries.iter() {
        assert_eq!(data.count_primes_in_range(n..=m), expected);
    }
}
