//! Arithmetic traits: integer logarithms, floor/ceil division, divisibility,
//! and integer square root, with exact contracts, implemented for `u64`.

use vstd::prelude::*;

verus! {

use vstd::arithmetic::power::pow;
use vstd::arithmetic::div_mod::{lemma_fundamental_div_mod, lemma_div_denominator};
use crate::theory::isqrt_spec;

/// A numeric value with a mathematical-integer view.
pub trait Number: Copy + Sized {
    /// The value as a mathematical integer.
    spec fn as_int(self) -> int;
}

impl Number for u64 {
    open spec fn as_int(self) -> int {
        self as int
    }
}

/// Floor logarithms in base 2 and base 10.
pub trait Logarithm: Number {
    /// The floor of the base-2 logarithm; 0 for an input of 0.
    fn log2(self) -> (r: Self)
        ensures
            0 <= r.as_int(),
            self.as_int() == 0 ==> r.as_int() == 0,
            self.as_int() >= 1 ==> pow(2, r.as_int() as nat) <= self.as_int()
                < pow(2, (r.as_int() + 1) as nat),
    ;

    /// The floor of the base-10 logarithm; 0 for an input of 0.
    fn log10(self) -> (r: Self)
        ensures
            0 <= r.as_int(),
            self.as_int() == 0 ==> r.as_int() == 0,
            self.as_int() >= 1 ==> pow(10, r.as_int() as nat) <= self.as_int()
                < pow(10, (r.as_int() + 1) as nat),
    ;
}

impl Logarithm for u64 {
    fn log2(self) -> (r: u64) {
        log_loop(self, 2)
    }

    fn log10(self) -> (r: u64) {
        log_loop(self, 10)
    }
}

/// Floor logarithm of `x` in base `base`, by repeated division.
fn log_loop(x: u64, base: u64) -> (r: u64)
    requires
        2 <= base,
    ensures
        0 <= r,
        x == 0 ==> r == 0,
        x >= 1 ==> pow(base as int, r as nat) <= x < pow(base as int, (r + 1) as nat),
{
    let mut v: u64 = x;
    let mut l: u64 = 0;
    proof {
        vstd::arithmetic::power::lemma_pow0(base as int);
    }
    while v >= base
        invariant
            2 <= base,
            l as int + v as int <= x as int + 1,
            v as int == x as int / pow(base as int, l as nat),
            pow(base as int, l as nat) >= 1,
            x == 0 ==> l == 0,
            x >= 1 ==> v >= 1,
        decreases v,
    {
        proof {
            let p = pow(base as int, l as nat);
            lemma_div_denominator(x as int, p, base as int);
            vstd::arithmetic::power::lemma_pow1(base as int);
            vstd::arithmetic::power::lemma_pow_adds(base as int, l as nat, 1);
            assert(p * base == pow(base as int, (l + 1) as nat));
            // the quotient shrinks by at least one but stays at least one
            vstd::arithmetic::div_mod::lemma_div_basics_3(base as int);
            vstd::arithmetic::div_mod::lemma_div_is_ordered(base as int, v as int, base as int);
            assert(v / base >= 1);
            vstd::arithmetic::div_mod::lemma_div_decreases(v as int, base as int);
            assert(v / base < v);
        }
        v = v / base;
        l = l + 1;
        proof {
            vstd::arithmetic::power::lemma_pow_positive(base as int, l as nat);
        }
    }
    proof {
        if x >= 1 {
            let p = pow(base as int, l as nat);
            lemma_fundamental_div_mod(x as int, p);
            vstd::arithmetic::div_mod::lemma_div_pos_is_pos(x as int, p);
            // v == x / p and v in [1, base) pins p <= x < p * base
            assert(v * p <= x) by {
                vstd::arithmetic::div_mod::lemma_remainder_lower(x as int, p);
            }
            assert(x < (v + 1) * p) by {
                vstd::arithmetic::div_mod::lemma_remainder_upper(x as int, p);
                assert((v as int + 1) * p == v as int * p + p) by (nonlinear_arith);
            }
            assert(1 * p <= v * p) by {
                vstd::arithmetic::mul::lemma_mul_inequality(1, v as int, p);
            }
            assert((v + 1) * p <= base * p) by {
                vstd::arithmetic::mul::lemma_mul_inequality(v as int + 1, base as int, p);
            }
            vstd::arithmetic::power::lemma_pow1(base as int);
            vstd::arithmetic::power::lemma_pow_adds(base as int, l as nat, 1);
            assert(base * p == pow(base as int, (l + 1) as nat)) by {
                vstd::arithmetic::mul::lemma_mul_is_commutative(base as int, p);
            }
        }
    }
    l
}

/// Floor division, ceiling division and divisibility.
pub trait Divisible: Number {
    /// The quotient rounded towards zero (these are nonnegative values,
    /// so this is the floor).
    fn div_floor(self, other: Self) -> (r: Self)
        requires
            other.as_int() > 0,
        ensures
            r.as_int() == self.as_int() / other.as_int(),
    ;

    /// The quotient rounded upwards.
    fn div_ceil(self, other: Self) -> (r: Self)
        requires
            other.as_int() > 0,
        ensures
            r.as_int() == self.as_int() / other.as_int()
                + if self.as_int() % other.as_int() == 0 { 0int } else { 1int },
    ;

    /// Whether `other` divides `self` exactly.
    fn divisible_by(self, other: Self) -> (r: bool)
        requires
            other.as_int() > 0,
        ensures
            r == (self.as_int() % other.as_int() == 0),
    ;
}

impl Divisible for u64 {
    fn div_floor(self, other: u64) -> (r: u64) {
        self / other
    }

    fn div_ceil(self, other: u64) -> (r: u64) {
        let div_floor = self / other;
        proof {
            lemma_fundamental_div_mod(self as int, other as int);
            assert(div_floor as int * other as int <= self as int) by {
                vstd::arithmetic::div_mod::lemma_remainder_lower(self as int, other as int);
            }
        }
        if div_floor * other == self {
            proof {
                vstd::arithmetic::div_mod::lemma_mod_multiples_basic(
                    div_floor as int,
                    other as int,
                );
                assert(other as int * div_floor as int == div_floor as int * other as int) by {
                    vstd::arithmetic::mul::lemma_mul_is_commutative(other as int, div_floor as int);
                }
            }
            div_floor
        } else {
            proof {
                assert(self as int % other as int != 0);
                assert(div_floor < u64::MAX) by {
                    // `other` does not divide `self`, so `other >= 2` and `self >= 1`
                    vstd::arithmetic::div_mod::lemma_div_basics_2(self as int);
                    vstd::arithmetic::div_mod::lemma_div_decreases(self as int, other as int);
                }
            }
            div_floor + 1
        }
    }

    fn divisible_by(self, other: u64) -> (r: bool) {
        self % other == 0
    }
}

/// Stepping a value up by one.
pub trait Increment: Number {
    /// Whether the value has room to grow by one.
    spec fn can_increment(self) -> bool;

    /// The value plus one.
    fn increment(self) -> (r: Self)
        requires
            self.can_increment(),
        ensures
            r.as_int() == self.as_int() + 1,
    ;
}

impl Increment for u64 {
    open spec fn can_increment(self) -> bool {
        self < u64::MAX
    }

    fn increment(self) -> (r: u64) {
        self + 1
    }
}

/// Integer square roots.
pub trait IntSqrt: Increment {
    /// `Ok` with the exact square root for perfect squares, `Err` with the
    /// floor of the square root otherwise.
    fn isqrt(self) -> (r: Result<Self, Self>)
        ensures
            match r {
                Ok(v) => v.as_int() == isqrt_spec(self.as_int()) && v.as_int() * v.as_int()
                    == self.as_int(),
                Err(v) => v.as_int() == isqrt_spec(self.as_int()) && v.as_int() * v.as_int()
                    != self.as_int(),
            },
    ;

    /// The floor of the square root.
    fn sqrt_floor(self) -> (r: Self)
        ensures
            r.as_int() == isqrt_spec(self.as_int()),
    ;

    /// The ceiling of the square root.
    fn sqrt_ceil(self) -> (r: Self)
        ensures
            r.as_int() == isqrt_spec(self.as_int())
                + if isqrt_spec(self.as_int()) * isqrt_spec(self.as_int()) == self.as_int() {
                    0int
                } else {
                    1int
                },
    ;

    /// Whether the value is a perfect square.
    fn is_square(self) -> (r: bool)
        ensures
            r == (isqrt_spec(self.as_int()) * isqrt_spec(self.as_int()) == self.as_int()),
    ;
}

impl IntSqrt for u64 {
    fn isqrt(self) -> (r: Result<u64, u64>) {
        let s = u64_sqrt_floor(self);
        proof {
            crate::theory::lemma_isqrt_spec_unique(self as int, s as int);
        }
        if s * s == self {
            Ok(s)
        } else {
            Err(s)
        }
    }

    fn sqrt_floor(self) -> (r: u64) {
        match IntSqrt::isqrt(self) {
            Ok(value) => value,
            Err(value) => value,
        }
    }

    fn sqrt_ceil(self) -> (r: u64) {
        match IntSqrt::isqrt(self) {
            Ok(value) => value,
            Err(value) => {
                proof {
                    crate::theory::lemma_isqrt_spec_bounds(self as int);
                    assert(value < u64::MAX) by (nonlinear_arith)
                        requires
                            0 <= value as int,
                            (value as int) * (value as int) <= self as int,
                            self <= u64::MAX,
                    ;
                }
                value.increment()
            },
        }
    }

    fn is_square(self) -> (r: bool) {
        IntSqrt::isqrt(self).is_ok()
    }
}

/// The floor of the square root of a `u64`, by binary search.
fn u64_sqrt_floor(x: u64) -> (r: u64)
    ensures
        r as int * r as int <= x as int,
        (x as int) < ((r as int + 1) * (r as int + 1)),
        r <= 0xffff_ffff,
{
    let mut lo: u64 = 0;
    let mut hi: u64 = 0x1_0000_0000;
    proof {
        assert(0x1_0000_0000int * 0x1_0000_0000int > u64::MAX as int);
    }
    while lo + 1 < hi
        invariant
            lo < hi <= 0x1_0000_0000,
            lo as int * lo as int <= x as int,
            (x as int) < hi as int * hi as int,
        decreases hi - lo,
    {
        let mid = lo + (hi - lo) / 2;
        proof {
            assert(lo < mid < hi);
            assert((mid as int) * (mid as int) < 0x1_0000_0000int * 0x1_0000_0000int) by (nonlinear_arith)
                requires
                    0 <= (mid as int) < 0x1_0000_0000int,
            ;
        }
        if mid * mid <= x {
            lo = mid;
        } else {
            hi = mid;
        }
    }
    proof {
        assert((lo as int + 1) * (lo as int + 1) >= hi as int * hi as int || lo as int + 1 == hi as int) by (nonlinear_arith)
            requires
                0 <= lo as int,
                lo as int + 1 >= hi as int,
                hi as int >= 1,
        ;
    }
    lo
}

} // verus!
