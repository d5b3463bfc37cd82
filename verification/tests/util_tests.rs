//! The arithmetic helpers and range utilities.

use prime_data::utils::arithmetic::{Divisible, IntSqrt, Logarithm};
use prime_data::utils::{unwrap_any, ContainsRange};

#[test]
fn integer_square_roots() {
    assert_eq!(IntSqrt::isqrt(49u64), Ok(7));
    assert_eq!(IntSqrt::isqrt(50u64), Err(7));
    assert_eq!(0u64.sqrt_floor(), 0);
    assert_eq!(1u64.sqrt_floor(), 1);
    assert_eq!(2u64.sqrt_floor(), 1);
    assert_eq!(900u64.sqrt_floor(), 30);
    assert_eq!(899u64.sqrt_floor(), 29);
    assert_eq!(10_000u64.sqrt_floor(), 100);
    assert_eq!(u64::MAX.sqrt_floor(), 4_294_967_295);
    assert_eq!(50u64.sqrt_ceil(), 8);
    assert_eq!(49u64.sqrt_ceil(), 7);
    assert!(144u64.is_square());
    assert!(!145u64.is_square());
    // squares near the largest representable ones stay exact
    let big = 4_294_967_295u64;
    assert_eq!((big * big).sqrt_floor(), big);
    assert_eq!((big * big - 1).sqrt_floor(), big - 1);
}

#[test]
fn logarithms() {
    assert_eq!(Logarithm::log2(0u64), 0);
    assert_eq!(Logarithm::log2(1u64), 0);
    assert_eq!(Logarithm::log2(2u64), 1);
    assert_eq!(Logarithm::log2(1023u64), 9);
    assert_eq!(Logarithm::log2(1024u64), 10);
    assert_eq!(Logarithm::log10(1u64), 0);
    assert_eq!(Logarithm::log10(9u64), 0);
    assert_eq!(Logarithm::log10(10u64), 1);
    assert_eq!(Logarithm::log10(9_999u64), 3);
    assert_eq!(Logarithm::log10(10_000u64), 4);
    assert_eq!(Logarithm::log10(u64::MAX), 19);
}

#[test]
fn divisions() {
    assert_eq!(Divisible::div_floor(7u64, 2), 3);
    assert_eq!(Divisible::div_ceil(7u64, 2), 4);
    assert_eq!(Divisible::div_ceil(8u64, 2), 4);
    assert_eq!(Divisible::div_ceil(0u64, 5), 0);
    assert!(Divisible::divisible_by(30u64, 30));
    assert!(!Divisible::divisible_by(31u64, 30));
}

#[test]
fn range_containment() {
    let outer = 0u64..=100u64;
    assert_eq!(outer.contains_range(&(5..=95)), Ok(()));
    assert_eq!(outer.bounds(), (0, 100));
    match (10u64..=100u64).contains_range(&(5..=95)) {
        Err(missing) => assert_eq!((*missing.start(), *missing.end()), (5, 9)),
        Ok(()) => panic!("the low side is not covered"),
    }
    match (0u64..=90u64).contains_range(&(5..=95)) {
        Err(missing) => assert_eq!((*missing.start(), *missing.end()), (91, 95)),
        Ok(()) => panic!("the high side is not covered"),
    }
}

#[test]
fn unwrap_either_side() {
    let ok: Result<u64, u64> = Ok(3);
    let err: Result<u64, u64> = Err(5);
    assert_eq!(unwrap_any(ok), 3);
    assert_eq!(unwrap_any(err), 5);
}
