//! # Prime Estimates
//!
//! Exact counting for small bounds, and closed-form analytic estimates of the
//! prime-counting function and of the n-th prime for large ones.  The
//! analytic guarantees of the estimates (an upper bound on the count, an
//! interval around the n-th prime) come from number theory and are not
//! re-derived here; the rest of the crate relies on them only operationally,
//! never for a wrong answer.

use vstd::prelude::*;

verus! {

use crate::data::prime_data::PrimeData;
use crate::theory::prime_count;
use crate::utils::arithmetic::Logarithm;
use vstd::arithmetic::power::pow;

/// The natural logarithm of 2 in fixed-point form with 32 fractional bits.
pub const LN2_Q32: u64 = 2977044471;

/// Evaluates the exact amount of prime numbers from 1 to N
///
/// This is exactly the same as creating a prime store ranging from 0 to N
/// and counting its primes.
pub fn exact_count(bound: u64) -> (r: u64)
    ensures
        r as int == prime_count(2, bound as int),
{
    proof {
        crate::theory::lemma_prime_count_from_zero(bound as int);
    }
    PrimeData::generate(core::ops::RangeInclusive::new(0, bound)).count_primes()
}

/// Estimates an upper bound for the amount of primes up to `bound`.
///
/// Up to 10,000 the count is exact (it is simply computed).  Above that, a
/// closed-form approximation takes over, chosen by the order of magnitude of
/// `bound`; analytic number theory puts its value at or above the true count
/// with a relative error below half a percent, a guarantee this crate states
/// here but does not re-derive.
pub fn upper_bound(bound: u64) -> (r: u64)
    ensures
        bound <= 10_000 ==> r as int == prime_count(2, bound as int),
{
    if bound <= 10_000 {
        exact_count(bound)
    } else {
        match Logarithm::log10(bound) {
            4 => offset_x_ln_x(bound, 1109),
            5 => offset_x_ln_x(bound, 1100),
            _ => pierre_dusart(bound, (1000, 2510)),
        }
    }
}

/// `bound / (ln(bound) - offset)`, with the offset given in thousandths.
fn offset_x_ln_x(bound: u64, offset_thousandths: u64) -> (r: u64)
    requires
        bound > 10_000,
        offset_thousandths <= 2000,
{
    let one: u128 = 0x1_0000_0000;
    let lnx = ln_q32(bound);
    let off: u128 = offset_thousandths as u128 * one / 1000;
    proof {
        // bound > 10000 >= 8192 pins ln(bound) well above the offset
        assert(lnx >= 38701578123);
        assert(off <= 2 * one + 1);
    }
    let denom: u128 = lnx as u128 - off;
    let q: u128 = bound as u128 * one / denom;
    proof {
        assert(denom >= one);
        assert(bound as int * one as int / denom as int <= bound as int * one as int
            / one as int) by {
            vstd::arithmetic::div_mod::lemma_div_is_ordered_by_denominator(
                bound as int * one as int,
                one as int,
                denom as int,
            );
        }
        assert(bound as int * one as int / one as int == bound as int) by {
            vstd::arithmetic::div_mod::lemma_div_multiples_vanish(bound as int, one as int);
            vstd::arithmetic::mul::lemma_mul_is_commutative(bound as int, one as int);
        }
    }
    q as u64
}

/// The Dusart-style estimate `x/ln x * (1 + c1/ln x + c2/ln^2 x)`, with the
/// coefficients given in thousandths.
fn pierre_dusart(bound: u64, coef: (u64, u64)) -> (r: u64)
    requires
        bound > 10_000,
        coef.0 <= 2000,
        coef.1 <= 4000,
{
    let one: u128 = 0x1_0000_0000;
    let lnx = ln_q32(bound);
    proof {
        assert(lnx >= 38701578123);
        assert(lnx < 0x40_0000_0000);
    }
    let lq = lnx as u128;
    let x_ln_x: u128 = bound as u128 * one / lq;
    let inv_ln: u128 = one * one / lq;
    proof {
        assert(inv_ln as int <= one as int) by {
            vstd::arithmetic::div_mod::lemma_div_is_ordered_by_denominator(
                one as int * one as int,
                one as int,
                lq as int,
            );
            vstd::arithmetic::div_mod::lemma_div_multiples_vanish(one as int, one as int);
        }
        assert(inv_ln as int * inv_ln as int <= one as int * one as int) by (nonlinear_arith)
            requires
                0 <= inv_ln as int <= one as int,
        ;
    }
    let inv_sq: u128 = inv_ln * inv_ln / one;
    proof {
        assert(inv_sq as int <= one as int) by {
            vstd::arithmetic::div_mod::lemma_div_is_ordered(
                inv_ln as int * inv_ln as int,
                one as int * one as int,
                one as int,
            );
            assert(one as int * one as int / (one as int) == one as int) by {
                vstd::arithmetic::div_mod::lemma_div_multiples_vanish(one as int, one as int);
            }
        }
        assert(coef.0 as int * inv_ln as int <= 2000 * one as int) by (nonlinear_arith)
            requires
                0 <= coef.0 as int <= 2000,
                0 <= inv_ln as int <= one as int,
        ;
        assert(coef.1 as int * inv_sq as int <= 4000 * one as int) by (nonlinear_arith)
            requires
                0 <= coef.1 as int <= 4000,
                0 <= inv_sq as int <= one as int,
        ;
    }
    let factor: u128 = one + coef.0 as u128 * inv_ln / 1000 + coef.1 as u128 * inv_sq / 1000;
    proof {
        assert(factor as int <= 7 * one as int) by {
            vstd::arithmetic::div_mod::lemma_div_is_ordered(
                coef.0 as int * inv_ln as int,
                2000 * one as int,
                1000,
            );
            vstd::arithmetic::div_mod::lemma_div_is_ordered(
                coef.1 as int * inv_sq as int,
                4000 * one as int,
                1000,
            );
            assert(2000 * one as int / 1000 == 2 * one as int) by {
                vstd::arithmetic::div_mod::lemma_div_multiples_vanish(2 * one as int, 1000);
                assert(2000 * one as int == 1000 * (2 * one as int)) by (nonlinear_arith);
            }
            assert(4000 * one as int / 1000 == 4 * one as int) by {
                vstd::arithmetic::div_mod::lemma_div_multiples_vanish(4 * one as int, 1000);
                assert(4000 * one as int == 1000 * (4 * one as int)) by (nonlinear_arith);
            }
        }
        assert(x_ln_x <= bound as u128) by {
            vstd::arithmetic::div_mod::lemma_div_is_ordered_by_denominator(
                bound as int * one as int,
                one as int,
                lq as int,
            );
            vstd::arithmetic::div_mod::lemma_div_multiples_vanish(bound as int, one as int);
            vstd::arithmetic::mul::lemma_mul_is_commutative(bound as int, one as int);
        }
        assert(x_ln_x as int * factor as int <= bound as int * (7 * one as int))
            by (nonlinear_arith)
            requires
                0 <= x_ln_x as int <= bound as int,
                0 <= factor as int <= 7 * one as int,
        ;
    }
    let est: u128 = x_ln_x * factor / one;
    let r: u128 = if est > u64::MAX as u128 {
        u64::MAX as u128
    } else {
        est
    };
    r as u64
}

/// The natural logarithm in fixed-point form with 32 fractional bits,
/// computed from the binary logarithm by repeated squaring of the mantissa.
///
/// Only coarse bounds are promised: the value is accurate to within a few
/// units in the last place, which the callers use purely as an estimate.
fn ln_q32(x: u64) -> (r: u64)
    requires
        x >= 2,
    ensures
        LN2_Q32 <= r < 0x40_0000_0000,
        x >= 4 ==> r >= 5954088942,
        x >= 8192 ==> r >= 38701578123,
        x >= 0x1_0000_0000 ==> r >= 95265423072,
{
    let b = Logarithm::log2(x);
    proof {
        vstd::arithmetic::power2::lemma2_to64();
        vstd::arithmetic::power2::lemma2_to64_rest();
        lemma_pow2_is_pow(b as nat);
        lemma_pow2_is_pow(1);
        lemma_pow2_is_pow(2);
        lemma_pow2_is_pow(13);
        lemma_pow2_is_pow(32);
        lemma_log2_at_least(x, b, 1, 2);
        if x >= 4 {
            lemma_log2_at_least(x, b, 2, 4);
        }
        if x >= 8192 {
            lemma_log2_at_least(x, b, 13, 8192);
        }
        if x >= 0x1_0000_0000 {
            lemma_log2_at_least(x, b, 32, 0x1_0000_0000);
        }
        lemma_log2_at_most(x, b);
    }
    // normalize to a mantissa in [2^32, 2^33)
    let mut f: u64 = x;
    let mut k: u64 = b;
    while k > 32
        invariant
            pow(2, k as nat) <= f as int && (f as int) < pow(2, (k + 1) as nat),
            k <= 63,
        decreases k,
    {
        proof {
            vstd::arithmetic::power::lemma_pow_adds(2, (k - 1) as nat, 1);
            vstd::arithmetic::power::lemma_pow_adds(2, k as nat, 1);
            vstd::arithmetic::power::lemma_pow1(2);
            vstd::arithmetic::power::lemma_pow_positive(2, (k - 1) as nat);
        }
        f = f / 2;
        k = k - 1;
    }
    while k < 32
        invariant
            pow(2, k as nat) <= f as int && (f as int) < pow(2, (k + 1) as nat),
            k <= 32,
        decreases 32 - k,
    {
        proof {
            vstd::arithmetic::power::lemma_pow_adds(2, k as nat, 1);
            vstd::arithmetic::power::lemma_pow_adds(2, (k + 1) as nat, 1);
            vstd::arithmetic::power::lemma_pow1(2);
            assert(pow(2, (k + 2) as nat) == pow(2, (k + 1) as nat) * 2) by {
                vstd::arithmetic::power::lemma_pow_adds(2, (k + 1) as nat, 1);
                vstd::arithmetic::power::lemma_pow1(2);
            }
            assert(pow(2, (k + 1) as nat) <= 0x1_0000_0000) by {
                vstd::arithmetic::power::lemma_pow_increases(2, (k + 1) as nat, 32);
                vstd::arithmetic::power2::lemma2_to64();
                lemma_pow2_is_pow(32);
            }
        }
        f = f * 2;
        k = k + 1;
    }
    proof {
        vstd::arithmetic::power2::lemma2_to64();
        vstd::arithmetic::power2::lemma2_to64_rest();
        lemma_pow2_is_pow(32);
        lemma_pow2_is_pow(33);
        assert(pow(2, 33) == 0x2_0000_0000);
    }
    // accumulate 32 fractional bits of the binary logarithm
    let mut y: u64 = 0;
    let mut j: u64 = 0;
    proof {
        vstd::arithmetic::power::lemma_pow0(2);
    }
    while j < 32
        invariant
            0x1_0000_0000 <= f < 0x2_0000_0000,
            j <= 32,
            (y as int) < pow(2, j as nat),
        decreases 32 - j,
    {
        proof {
            assert((f as int) * (f as int) < 0x2_0000_0000int * 0x2_0000_0000int)
                by (nonlinear_arith)
                requires
                    0 <= f as int,
                    (f as int) < 0x2_0000_0000int,
            ;
            vstd::arithmetic::power::lemma_pow_increases(2, j as nat, 31);
            lemma_pow2_is_pow(31);
            vstd::arithmetic::power2::lemma2_to64();
            assert(y < 0x8000_0000);
        }
        let sq: u128 = f as u128 * f as u128 / 0x1_0000_0000;
        proof {
            assert(0x1_0000_0000 <= sq < 0x4_0000_0000) by (nonlinear_arith)
                requires
                    sq == f as u128 * f as u128 / 0x1_0000_0000,
                    0x1_0000_0000 <= f < 0x2_0000_0000,
            ;
            vstd::arithmetic::power::lemma_pow_adds(2, j as nat, 1);
            vstd::arithmetic::power::lemma_pow1(2);
        }
        if sq >= 0x2_0000_0000 {
            f = (sq / 2) as u64;
            y = 2 * y + 1;
        } else {
            f = sq as u64;
            y = 2 * y;
        }
        j = j + 1;
    }
    proof {
        vstd::arithmetic::power2::lemma2_to64();
        vstd::arithmetic::power2::lemma2_to64_rest();
        lemma_pow2_is_pow(32);
        assert(y < 0x1_0000_0000);
    }
    let log2q: u64 = b * 0x1_0000_0000 + y;
    let r128: u128 = log2q as u128 * LN2_Q32 as u128 / 0x1_0000_0000;
    proof {
        let one = 0x1_0000_0000int;
        let lq = log2q as int;
        assert(b as int * one <= lq < (b as int + 1) * one);
        assert(r128 as int == lq * LN2_Q32 as int / one);
        lemma_ln_scale(b as int, lq, 1);
        if x >= 4 {
            lemma_ln_scale(b as int, lq, 2);
        }
        if x >= 8192 {
            lemma_ln_scale(b as int, lq, 13);
        }
        if x >= 0x1_0000_0000 {
            lemma_ln_scale(b as int, lq, 32);
        }
        assert(lq <= 64 * one);
        assert(lq * LN2_Q32 as int <= 64 * one * LN2_Q32 as int) by (nonlinear_arith)
            requires
                lq <= 64 * one,
                0 <= lq,
                one == 0x1_0000_0000int,
        ;
        vstd::arithmetic::div_mod::lemma_div_is_ordered(
            lq * LN2_Q32 as int,
            64 * one * LN2_Q32 as int,
            one,
        );
        assert(64 * one * LN2_Q32 as int / one == 64 * LN2_Q32 as int) by {
            vstd::arithmetic::div_mod::lemma_div_multiples_vanish(
                64 * LN2_Q32 as int,
                one,
            );
            vstd::arithmetic::mul::lemma_mul_is_associative(64, one, LN2_Q32 as int);
            vstd::arithmetic::mul::lemma_mul_is_commutative(64 * LN2_Q32 as int, one);
            vstd::arithmetic::mul::lemma_mul_is_commutative(64, one);
            assert(64 * one * LN2_Q32 as int == one * (64 * LN2_Q32 as int))
                by (nonlinear_arith);
        }
    }
    r128 as u64
}

/// `pow2` agrees with `pow(2, _)`.
proof fn lemma_pow2_is_pow(e: nat)
    ensures
        vstd::arithmetic::power2::pow2(e) == pow(2, e),
{
    vstd::arithmetic::power2::lemma_pow2(e);
}

/// A floor binary logarithm of at least `k` follows from `x >= 2^k`.
proof fn lemma_log2_at_least(x: u64, b: u64, k: nat, p2k: int)
    requires
        pow(2, b as nat) <= x as int && (x as int) < pow(2, (b as int + 1) as nat),
        p2k == pow(2, k),
        x as int >= p2k,
    ensures
        b as int >= k,
{
    if (b as int) < k {
        vstd::arithmetic::power::lemma_pow_increases(2, (b as int + 1) as nat, k);
    }
}

/// The floor binary logarithm of a 64-bit value is at most 63.
proof fn lemma_log2_at_most(x: u64, b: u64)
    requires
        pow(2, b as nat) <= x as int,
    ensures
        b <= 63,
{
    if b > 63 {
        vstd::arithmetic::power::lemma_pow_increases(2, 64, b as nat);
        vstd::arithmetic::power2::lemma2_to64_rest();
        lemma_pow2_is_pow(64);
    }
}

/// Scaling the fixed-point binary logarithm by `ln 2` keeps its floor above
/// each whole multiple it has passed.
proof fn lemma_ln_scale(b: int, lq: int, k: int)
    requires
        0 <= k <= b,
        b * 0x1_0000_0000 <= lq,
    ensures
        lq * LN2_Q32 as int / 0x1_0000_0000 >= k * LN2_Q32 as int,
{
    let one = 0x1_0000_0000int;
    assert(k * one * LN2_Q32 as int <= lq * LN2_Q32 as int) by (nonlinear_arith)
        requires
            0 <= k <= b,
            b * one <= lq,
            one == 0x1_0000_0000int,
    ;
    vstd::arithmetic::div_mod::lemma_div_is_ordered(
        k * one * LN2_Q32 as int,
        lq * LN2_Q32 as int,
        one,
    );
    assert(k * one * LN2_Q32 as int / one == k * LN2_Q32 as int) by {
        assert(k * one * LN2_Q32 as int == one * (k * LN2_Q32 as int)) by (nonlinear_arith);
        vstd::arithmetic::div_mod::lemma_div_multiples_vanish(k * LN2_Q32 as int, one);
    }
}

/// Approximates the "size" of the nth prime number, after the classical
/// asymptotic expansion `n (ln n + ln ln n - 1 + (ln ln n - 2)/ln n - ...)`.
///
/// The first three primes are returned exactly.  For `n >= 4` the value is a
/// fixed-point evaluation of the expansion, clamped to the `u64` range; its
/// quality as an approximation is an analytic fact that this crate does not
/// re-derive.
pub fn nth_prime_approximation(n: u64) -> (r: u64)
    requires
        n >= 1,
    ensures
        n == 1 ==> r == 2,
        n == 2 ==> r == 3,
        n == 3 ==> r == 5,
{
    if n == 1 {
        return 2;
    }
    if n == 2 {
        return 3;
    }
    if n == 3 {
        return 5;
    }
    let one: u128 = 0x1_0000_0000;
    let l = ln_q32(n);
    let ll_raw = ln_q32(l);
    proof {
        assert(l >= 5954088942);
        assert(ll_raw >= 95265423072);
    }
    let ll = ll_raw - 32 * LN2_Q32;
    let lq = l as u128;
    let llq = ll as u128;
    proof {
        assert(lq as int * lq as int <= 0x40_0000_0000int * 0x40_0000_0000int)
            by (nonlinear_arith)
            requires
                0 <= lq as int,
                (lq as int) < 0x40_0000_0000int,
        ;
        assert(llq as int * llq as int <= 0x40_0000_0000int * 0x40_0000_0000int)
            by (nonlinear_arith)
            requires
                0 <= llq as int,
                (llq as int) < 0x40_0000_0000int,
        ;
    }
    let l2: u128 = lq * lq / one;
    let ll2: u128 = llq * llq / one;
    proof {
        assert(l2 as int >= one as int) by (nonlinear_arith)
            requires
                l2 as int == lq as int * lq as int / 0x1_0000_0000,
                one as int == 0x1_0000_0000,
                lq as int >= 5954088942,
        ;
        assert(ll2 as int + 11 * one as int >= 6 * llq as int + 2 * one as int - 1)
            by (nonlinear_arith)
            requires
                ll2 as int == llq as int * llq as int / 0x1_0000_0000,
                one as int == 0x1_0000_0000,
                0 <= llq as int && (llq as int) < 0x40_0000_0000,
        ;
    }
    proof {
        assert(ll2 as int <= 0x40_0000_0000int * 0x40_0000_0000int) by {
            vstd::arithmetic::div_mod::lemma_div_nonincreasing(
                llq as int * llq as int,
                one as int,
            );
        }
        assert((ll2 as int + 11 * one as int - 6 * llq as int) * one as int
            <= (0x40_0000_0000int * 0x40_0000_0000int + 11 * one as int) * one as int)
            by (nonlinear_arith)
            requires
                0 <= ll2 as int + 11 * one as int - 6 * llq as int <= 0x40_0000_0000int
                    * 0x40_0000_0000int + 11 * one as int,
                one as int == 0x1_0000_0000int,
        ;
    }
    let t2: u128 = (ll2 + 11 * one - 6 * llq) * one / (2 * l2);
    proof {
        assert((2 * one as int - llq as int) * one as int <= 2 * one as int * one as int
            && (if llq as int >= 2 * one as int {
            (llq as int - 2 * one as int) * one as int
        } else {
            0int
        }) <= 0x40_0000_0000int * one as int) by (nonlinear_arith)
            requires
                0 <= llq as int,
                (llq as int) < 0x40_0000_0000int,
                one as int == 0x1_0000_0000int,
        ;
    }
    let (posv, negv): (u128, u128) = if llq < 2 * one {
        let t1 = (2 * one - llq) * one / lq;
        (lq + llq, one + t2 + t1)
    } else {
        let t1 = (llq - 2 * one) * one / lq;
        proof {
            // dividing by at least one whole unit cancels the scaling
            assert(t1 as int <= llq as int - 2 * one as int) by {
                vstd::arithmetic::div_mod::lemma_div_is_ordered_by_denominator(
                    (llq as int - 2 * one as int) * one as int,
                    one as int,
                    lq as int,
                );
                vstd::arithmetic::div_mod::lemma_div_multiples_vanish(
                    llq as int - 2 * one as int,
                    one as int,
                );
                vstd::arithmetic::mul::lemma_mul_is_commutative(
                    llq as int - 2 * one as int,
                    one as int,
                );
            }
        }
        (lq + llq + t1, one + t2)
    };
    if posv <= negv {
        return 0;
    }
    let paren = posv - negv;
    proof {
        assert(paren as int <= 3 * 0x40_0000_0000int);
        assert(n as int * paren as int <= n as int * (3 * 0x40_0000_0000int))
            by (nonlinear_arith)
            requires
                0 <= paren as int <= 3 * 0x40_0000_0000int,
                0 <= n as int,
        ;
        assert(n as int * (3 * 0x40_0000_0000int) <= 0xffff_ffff_ffff_ffffint * (3
            * 0x40_0000_0000int)) by (nonlinear_arith)
            requires
                0 <= n as int <= 0xffff_ffff_ffff_ffffint,
        ;
    }
    let prod: u128 = n as u128 * paren / one;
    if prod > u64::MAX as u128 {
        u64::MAX
    } else {
        prod as u64
    }
}

/// Returns a range that contains the nth prime number
///
/// Below the ten-thousandth prime the interval is a fixed one that ends just
/// beyond the largest such prime; beyond that, the interval is centred on
/// [`nth_prime_approximation`] with a width set by the order of magnitude of
/// `n`.  That the true nth prime falls inside the interval is an analytic
/// fact this crate relies on operationally but does not re-derive.
pub fn nth_prime_bounds(n: u64) -> (r: core::ops::RangeInclusive<u64>)
    ensures
        r@.start <= r@.end,
        n < 10000 ==> r@.start == 0 && r@.end == 104723,
{
    let log = Logarithm::log10(n);
    proof {
        reveal_with_fuel(pow, 6);
        if n >= 1 {
            if n < 10000 && log >= 4 {
                vstd::arithmetic::power::lemma_pow_increases(10, 4, log as nat);
            }
            if n >= 10000 && log < 4 {
                vstd::arithmetic::power::lemma_pow_increases(10, (log as int + 1) as nat, 4);
            }
        }
    }
    if log < 4 {
        core::ops::RangeInclusive::new(0, 104723)
    } else {
        let approximation = nth_prime_approximation(n);
        let epsilon = match log {
            4 => approximation / 128,
            5 => approximation / 1024,
            6 => approximation / 2048,
            7 => approximation / 8192,
            _ => approximation / 16384,
        };
        proof {
            vstd::arithmetic::div_mod::lemma_div_is_ordered_by_denominator(
                approximation as int,
                1,
                128,
            );
            vstd::arithmetic::div_mod::lemma_div_is_ordered_by_denominator(
                approximation as int,
                1,
                1024,
            );
            vstd::arithmetic::div_mod::lemma_div_is_ordered_by_denominator(
                approximation as int,
                1,
                2048,
            );
            vstd::arithmetic::div_mod::lemma_div_is_ordered_by_denominator(
                approximation as int,
                1,
                8192,
            );
            vstd::arithmetic::div_mod::lemma_div_is_ordered_by_denominator(
                approximation as int,
                1,
                16384,
            );
            vstd::arithmetic::div_mod::lemma_div_basics_2(approximation as int);
        }
        let lo = approximation - epsilon;
        let hi = match approximation.checked_add(epsilon) {
            Some(h) => h,
            None => u64::MAX,
        };
        core::ops::RangeInclusive::new(lo, hi)
    }
}

} // verus!
