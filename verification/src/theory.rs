//! Mathematical definitions of primality, divisor counting, the coprime-30
//! wheel, and the lemmas about them that the rest of the crate builds on.

use vstd::prelude::*;

verus! {

use vstd::arithmetic::div_mod::{
    lemma_fundamental_div_mod, lemma_mod_self_0, lemma_mod_multiples_basic,
    lemma_fundamental_div_mod_converse,
};
use vstd::arithmetic::mul::{lemma_mul_is_associative, lemma_mul_inequality};
use vstd::arithmetic::power::pow;

/// Some integer in `[lo, hi]` divides `x`.
pub open spec fn has_divisor_in(x: int, lo: int, hi: int) -> bool
    decreases hi - lo + 1,
{
    lo <= hi && (x % lo == 0 || has_divisor_in(x, lo + 1, hi))
}

/// `x` is a prime number: at least 2, with no divisor strictly between 1 and `x`.
pub open spec fn is_prime_spec(x: int) -> bool {
    2 <= x && !has_divisor_in(x, 2, x - 1)
}

/// Some prime in `[lo, hi]` divides `x`.
pub open spec fn has_prime_divisor_in(x: int, lo: int, hi: int) -> bool
    decreases hi - lo + 1,
{
    lo <= hi && ((is_prime_spec(lo) && x % lo == 0) || has_prime_divisor_in(x, lo + 1, hi))
}

/// The number of primes in the inclusive range `[lo, hi]`.
pub open spec fn prime_count(lo: int, hi: int) -> nat
    decreases hi - lo + 1,
{
    if lo > hi {
        0
    } else {
        prime_count(lo, hi - 1) + if is_prime_spec(hi) { 1nat } else { 0nat }
    }
}

/// The floor of the square root of a nonnegative integer.
pub open spec fn isqrt_spec(x: int) -> int
    decreases x,
{
    if x <= 0 {
        0
    } else {
        let r = isqrt_spec(x - 1);
        if (r + 1) * (r + 1) <= x {
            r + 1
        } else {
            r
        }
    }
}

/// `k` is one of the eight residues mod 30 that are coprime with 30.
pub open spec fn is_k_value(k: int) -> bool {
    k == 1 || k == 7 || k == 11 || k == 13 || k == 17 || k == 19 || k == 23 || k == 29
}

/// The i-th k-value, in ascending order (index 0 through 7).
pub open spec fn k_value(i: int) -> int {
    if i == 0 {
        1
    } else if i == 1 {
        7
    } else if i == 2 {
        11
    } else if i == 3 {
        13
    } else if i == 4 {
        17
    } else if i == 5 {
        19
    } else if i == 6 {
        23
    } else {
        29
    }
}

/// The index of a k-value in the ascending list of the eight k-values.
pub open spec fn k_index(k: int) -> int {
    if k == 1 {
        0
    } else if k == 7 {
        1
    } else if k == 11 {
        2
    } else if k == 13 {
        3
    } else if k == 17 {
        4
    } else if k == 19 {
        5
    } else if k == 23 {
        6
    } else {
        7
    }
}

/// `x` is coprime with 30 (equivalently, with 2, 3 and 5).
pub open spec fn coprime30(x: int) -> bool {
    is_k_value(x % 30)
}

/// How many of the primes 2, 3 and 5 (the ones a prime store does not
/// represent as bits) lie in the inclusive range `[lo, hi]`.
pub open spec fn small_primes_in(lo: int, hi: int) -> int {
    (if lo <= 2 && 2 <= hi { 1int } else { 0int })
    + (if lo <= 3 && 3 <= hi { 1int } else { 0int })
    + (if lo <= 5 && 5 <= hi { 1int } else { 0int })
}

/// The number of coprime-30 primes in the inclusive range `[lo, hi]`.
pub open spec fn wheel_prime_count(lo: int, hi: int) -> nat
    decreases hi - lo + 1,
{
    if lo > hi {
        0
    } else {
        wheel_prime_count(lo, hi - 1)
        + if is_prime_spec(hi) && coprime30(hi) { 1nat } else { 0nat }
    }
}

pub proof fn lemma_has_divisor_iff(x: int, lo: int, hi: int)
    ensures
        has_divisor_in(x, lo, hi) <==> exists|d: int| lo <= d <= hi && #[trigger] (x % d) == 0,
    decreases hi - lo + 1,
{
    if lo <= hi {
        lemma_has_divisor_iff(x, lo + 1, hi);
        if x % lo == 0 {
            assert(lo <= lo <= hi && x % lo == 0);
        }
    }
}

pub proof fn lemma_has_prime_divisor_iff(x: int, lo: int, hi: int)
    ensures
        has_prime_divisor_in(x, lo, hi) <==> exists|d: int|
            lo <= d <= hi && is_prime_spec(d) && #[trigger] (x % d) == 0,
    decreases hi - lo + 1,
{
    if lo <= hi {
        lemma_has_prime_divisor_iff(x, lo + 1, hi);
        if is_prime_spec(lo) && x % lo == 0 {
            assert(lo <= lo <= hi && is_prime_spec(lo) && x % lo == 0);
        }
    }
}

/// Divisibility is transitive: if `p` divides `d` and `d` divides `x`,
/// then `p` divides `x`.
pub proof fn lemma_divides_trans(p: int, d: int, x: int)
    requires
        1 <= p,
        1 <= d,
        d % p == 0,
        x % d == 0,
    ensures
        x % p == 0,
{
    lemma_fundamental_div_mod(x, d);
    lemma_fundamental_div_mod(d, p);
    let k = x / d;
    let j = d / p;
    assert(x == (p * j) * k);
    lemma_mul_is_associative(p, j, k);
    lemma_mod_multiples_basic(j * k, p);
}

/// A divisor of a positive number is at most the number.
pub proof fn lemma_divisor_le(d: int, x: int)
    requires
        1 <= d,
        1 <= x,
        x % d == 0,
    ensures
        d <= x,
        1 <= x / d,
        x == d * (x / d),
    decreases x,
{
    lemma_fundamental_div_mod(x, d);
    let q = x / d;
    assert(x == d * q);
    if q <= 0 {
        lemma_mul_inequality(q, 0, d);
        assert(d * q <= 0) by {
            vstd::arithmetic::mul::lemma_mul_is_commutative(d, q);
        }
    }
    if d > x {
        assert(q >= 1);
        lemma_mul_inequality(1, q, d);
        assert(d * 1 <= d * q) by {
            vstd::arithmetic::mul::lemma_mul_is_commutative(d, q);
            vstd::arithmetic::mul::lemma_mul_is_commutative(d, 1);
        }
    }
}

/// The recursive floor square root is indeed the floor of the square root.
pub proof fn lemma_isqrt_spec_bounds(x: int)
    requires
        0 <= x,
    ensures
        0 <= isqrt_spec(x),
        isqrt_spec(x) * isqrt_spec(x) <= x,
        x < ((isqrt_spec(x) + 1) * (isqrt_spec(x) + 1)),
    decreases x,
{
    if x == 0 {
    } else {
        lemma_isqrt_spec_bounds(x - 1);
        let r0 = isqrt_spec(x - 1);
        if (r0 + 1) * (r0 + 1) <= x {
            assert(x < (r0 + 2) * (r0 + 2)) by (nonlinear_arith)
                requires
                    0 <= r0,
                    x - 1 < ((r0 + 1) * (r0 + 1)),
            ;
        }
    }
}

/// Any value whose square brackets `x` from below is the floor square root of `x`.
pub proof fn lemma_isqrt_spec_unique(x: int, s: int)
    requires
        0 <= x,
        0 <= s,
        s * s <= x,
        x < ((s + 1) * (s + 1)),
    ensures
        s == isqrt_spec(x),
{
    lemma_isqrt_spec_bounds(x);
    let r = isqrt_spec(x);
    if s < r {
        assert((s + 1) * (s + 1) <= r * r) by (nonlinear_arith)
            requires
                0 <= s,
                s + 1 <= r,
        ;
    }
    if r < s {
        assert((r + 1) * (r + 1) <= s * s) by (nonlinear_arith)
            requires
                0 <= r,
                r + 1 <= s,
        ;
    }
}

/// The residue of a value inside the block of thirty starting at `30 * a`.
pub proof fn lemma_mod30_window(a: int, w: int)
    requires
        0 <= w < 30,
        0 <= a,
    ensures
        (30 * a + w) % 30 == w,
        (30 * a + w) / 30 == a,
{
    lemma_fundamental_div_mod_converse(30 * a + w, 30, a, w);
}

/// Every integer of at least 2 has a prime divisor.
pub proof fn lemma_exists_prime_factor(x: int)
    requires
        2 <= x,
    ensures
        exists|p: int| is_prime_spec(p) && #[trigger] (x % p) == 0 && p <= x,
    decreases x,
{
    if is_prime_spec(x) {
        lemma_mod_self_0(x);
        assert(is_prime_spec(x) && x % x == 0 && x <= x);
    } else {
        lemma_has_divisor_iff(x, 2, x - 1);
        let d = choose|d: int| 2 <= d <= x - 1 && #[trigger] (x % d) == 0;
        lemma_exists_prime_factor(d);
        let p = choose|p: int| is_prime_spec(p) && #[trigger] (d % p) == 0 && p <= d;
        lemma_divides_trans(p, d, x);
        assert(is_prime_spec(p) && x % p == 0 && p <= x);
    }
}

/// Every composite has a prime divisor whose square is at most the number.
pub proof fn lemma_composite_has_small_prime_factor(x: int)
    requires
        2 <= x,
        !is_prime_spec(x),
    ensures
        exists|p: int| is_prime_spec(p) && #[trigger] (x % p) == 0 && p * p <= x,
{
    lemma_has_divisor_iff(x, 2, x - 1);
    let d = choose|d: int| 2 <= d <= x - 1 && #[trigger] (x % d) == 0;
    lemma_fundamental_div_mod(x, d);
    let e = x / d;
    assert(x == d * e);
    lemma_divisor_le(d, x);
    assert(e >= 2) by {
        if e == 1 {
            assert(x == d * 1 == d);
        }
    }
    lemma_mod_multiples_basic(d, e);
    assert(x % e == 0) by {
        vstd::arithmetic::mul::lemma_mul_is_commutative(d, e);
    }
    let f = if d <= e { d } else { e };
    assert(f * f <= x) by {
        if d <= e {
            lemma_mul_inequality(d, e, d);
            vstd::arithmetic::mul::lemma_mul_is_commutative(d, e);
        } else {
            lemma_mul_inequality(e, d, e);
            vstd::arithmetic::mul::lemma_mul_is_commutative(e, d);
        }
    }
    assert(x % f == 0);
    lemma_exists_prime_factor(f);
    let p = choose|p: int| is_prime_spec(p) && #[trigger] (f % p) == 0 && p <= f;
    lemma_divides_trans(p, f, x);
    assert(p * p <= f * f) by {
        lemma_mul_inequality(p, f, p);
        lemma_mul_inequality(p, f, f);
        vstd::arithmetic::mul::lemma_mul_is_commutative(p, f);
    }
    assert(f * f <= x) by {
        if d <= e {
            lemma_mul_inequality(d, e, d);
            vstd::arithmetic::mul::lemma_mul_is_commutative(d, e);
        } else {
            lemma_mul_inequality(e, d, e);
            vstd::arithmetic::mul::lemma_mul_is_commutative(e, d);
        }
    }
    assert(is_prime_spec(p) && x % p == 0 && p * p <= x);
}

/// Among the residues modulo 30, the k-values are exactly those that 2, 3
/// and 5 all fail to divide.
pub proof fn lemma_residue_char(r: int)
    requires
        0 <= r < 30,
    ensures
        is_k_value(r) <==> (r % 2 != 0 && r % 3 != 0 && r % 5 != 0),
{
}

/// The primality facts about the values below 30 that the base block states.
/// A value with no divisor up to its square root is prime.
pub proof fn lemma_prime_test(x: int)
    requires
        2 <= x,
        forall|d: int| 2 <= d && d * d <= x ==> #[trigger] (x % d) != 0,
    ensures
        is_prime_spec(x),
{
    if !is_prime_spec(x) {
        lemma_composite_has_small_prime_factor(x);
        let p = choose|p: int| is_prime_spec(p) && #[trigger] (x % p) == 0 && p * p <= x;
        assert(x % p != 0);
    }
}

#[verifier::rlimit(50)]
pub proof fn lemma_small_primes()
    ensures
        is_prime_spec(2),
        is_prime_spec(3),
        is_prime_spec(5),
        is_prime_spec(7),
        is_prime_spec(11),
        is_prime_spec(13),
        is_prime_spec(17),
        is_prime_spec(19),
        is_prime_spec(23),
        is_prime_spec(29),
        !is_prime_spec(0),
        !is_prime_spec(1),
        !is_prime_spec(4),
        !is_prime_spec(6),
{
    reveal_with_fuel(has_divisor_in, 6);
    lemma_small_prime_case(2);
    lemma_small_prime_case(3);
    lemma_small_prime_case(5);
    lemma_small_prime_case(7);
    lemma_small_prime_case(11);
    lemma_small_prime_case(13);
    lemma_small_prime_case(17);
    lemma_small_prime_case(19);
    lemma_small_prime_case(23);
    lemma_small_prime_case(29);
}

/// A value up to 29 that 2, 3, 4 and 5 all fail to divide is prime.
proof fn lemma_small_prime_case(x: int)
    requires
        2 <= x <= 29,
        x % 2 != 0 || x == 2,
        x % 3 != 0 || x == 3,
        x % 4 != 0 || x == 2,
        x % 5 != 0 || x == 5,
    ensures
        is_prime_spec(x),
{
    assert forall|d: int| 2 <= d && #[trigger] (d * d) <= x implies #[trigger] (x % d) != 0 by {
        assert(d <= 5) by (nonlinear_arith)
            requires
                2 <= d,
                d * d <= x,
                x <= 29,
        ;
        if x == 2 || x == 3 {
            assert(d * d > x);
        } else if x == 5 {
            assert(d == 2);
        } else {
            assert(d == 2 || d == 3 || d == 4 || d == 5);
        }
    }
    lemma_prime_test(x);
}

/// A value of at least 2 that is neither 2, 3 nor 5 and shares a factor with
/// 30 is composite.
pub proof fn lemma_nonwheel_not_prime(x: int)
    requires
        2 <= x,
        !coprime30(x),
        x != 2,
        x != 3,
        x != 5,
    ensures
        !is_prime_spec(x),
{
    let r = x % 30;
    vstd::arithmetic::div_mod::lemma_mod_pos_bound(x, 30);
    lemma_residue_char(r);
    let d: int = if r % 2 == 0 {
        2
    } else if r % 3 == 0 {
        3
    } else {
        5
    };
    assert(r % d == 0);
    assert(x % d == 0) by {
        if d == 2 {
            vstd::arithmetic::div_mod::lemma_mod_mod(x, 2, 15);
        } else if d == 3 {
            vstd::arithmetic::div_mod::lemma_mod_mod(x, 3, 10);
        } else {
            vstd::arithmetic::div_mod::lemma_mod_mod(x, 5, 6);
        }
    }
    lemma_divisor_le(d, x);
    assert(d < x);
    lemma_has_divisor_iff(x, 2, x - 1);
}

/// A prime other than 2, 3 and 5 is coprime with 30, and is at least 7.
pub proof fn lemma_prime_is_wheel(x: int)
    requires
        is_prime_spec(x),
        x != 2,
        x != 3,
        x != 5,
    ensures
        coprime30(x),
        x >= 7,
{
    if !coprime30(x) {
        lemma_nonwheel_not_prime(x);
    }
    lemma_small_primes();
    assert(x != 4 && x != 6);
}

/// A proper multiple of a small value is composite.
pub proof fn lemma_small_divisor_composite(x: int, d: int)
    requires
        2 <= d < x,
        x % d == 0,
    ensures
        !is_prime_spec(x),
{
    lemma_has_divisor_iff(x, 2, x - 1);
}

/// A value that 2, 3 and 5 all fail to divide, and that no prime in
/// `[7, isqrt(x)]` divides either, is prime.
pub proof fn lemma_no_witness_prime(x: int)
    requires
        2 <= x,
        x % 2 != 0,
        x % 3 != 0,
        x % 5 != 0,
        !has_prime_divisor_in(x, 7, isqrt_spec(x)),
    ensures
        is_prime_spec(x),
{
    if !is_prime_spec(x) {
        lemma_composite_has_small_prime_factor(x);
        let p = choose|p: int| is_prime_spec(p) && #[trigger] (x % p) == 0 && p * p <= x;
        lemma_isqrt_spec_bounds(x);
        assert(p <= isqrt_spec(x)) by (nonlinear_arith)
            requires
                p * p <= x,
                x < ((isqrt_spec(x) + 1) * (isqrt_spec(x) + 1)),
                0 <= isqrt_spec(x),
                2 <= p,
        ;
        assert(p != 2 && p != 3 && p != 5);
        lemma_prime_is_wheel(p);
        lemma_has_prime_divisor_iff(x, 7, isqrt_spec(x));
        assert(7 <= p <= isqrt_spec(x) && is_prime_spec(p) && x % p == 0);
    }
}

/// A factor of a coprime-30 product is itself coprime with 30.
pub proof fn lemma_coprime30_factor(p: int, m: int)
    requires
        1 <= p,
        1 <= m,
        coprime30(p * m),
    ensures
        coprime30(p),
        coprime30(m),
{
    let x = p * m;
    assert(1 <= p * m) by (nonlinear_arith)
        requires
            1 <= p,
            1 <= m,
    ;
    vstd::arithmetic::div_mod::lemma_mod_pos_bound(x, 30);
    vstd::arithmetic::div_mod::lemma_mod_pos_bound(p, 30);
    vstd::arithmetic::div_mod::lemma_mod_pos_bound(m, 30);
    lemma_residue_char(x % 30);
    lemma_residue_char(p % 30);
    lemma_residue_char(m % 30);
    lemma_mod_factor_vanish(p, m, 2, 15);
    lemma_mod_factor_vanish(p, m, 3, 10);
    lemma_mod_factor_vanish(p, m, 5, 6);
}

/// If either side of a product is divisible by `d`, so is the product;
/// stated through the residues mod `30 == d * c`.
proof fn lemma_mod_factor_vanish(p: int, m: int, d: int, c: int)
    requires
        1 <= p,
        1 <= m,
        0 < d,
        0 < c,
    ensures
        (p % (d * c)) % d == 0 ==> ((p * m) % (d * c)) % d == 0,
        (m % (d * c)) % d == 0 ==> ((p * m) % (d * c)) % d == 0,
{
    vstd::arithmetic::div_mod::lemma_mod_mod(p, d, c);
    vstd::arithmetic::div_mod::lemma_mod_mod(m, d, c);
    vstd::arithmetic::div_mod::lemma_mod_mod(p * m, d, c);
    if p % d == 0 {
        lemma_fundamental_div_mod(p, d);
        assert(p * m == d * ((p / d) * m)) by (nonlinear_arith)
            requires
                p == d * (p / d),
        ;
        lemma_mod_multiples_basic((p / d) * m, d);
        assert((d * ((p / d) * m)) % d == 0) by {
            vstd::arithmetic::mul::lemma_mul_is_commutative(d, (p / d) * m);
        }
    }
    if m % d == 0 {
        lemma_fundamental_div_mod(m, d);
        assert(p * m == d * ((m / d) * p)) by (nonlinear_arith)
            requires
                m == d * (m / d),
        ;
        lemma_mod_multiples_basic((m / d) * p, d);
        assert((d * ((m / d) * p)) % d == 0) by {
            vstd::arithmetic::mul::lemma_mul_is_commutative(d, (m / d) * p);
        }
    }
}

/// The product of two coprime-30 values is coprime with 30.
pub proof fn lemma_coprime30_product(a: int, b: int)
    requires
        0 <= a,
        0 <= b,
        coprime30(a),
        coprime30(b),
    ensures
        coprime30(a * b),
{
    vstd::arithmetic::div_mod::lemma_mod_pos_bound(a, 30);
    vstd::arithmetic::div_mod::lemma_mod_pos_bound(b, 30);
    vstd::arithmetic::mul::lemma_mul_nonnegative(a, b);
    vstd::arithmetic::div_mod::lemma_mod_pos_bound(a * b, 30);
    lemma_residue_char(a % 30);
    lemma_residue_char(b % 30);
    lemma_residue_char((a * b) % 30);
    // each small prime's residue carries over from the residues mod 30
    vstd::arithmetic::div_mod::lemma_mod_mod(a, 2, 15);
    vstd::arithmetic::div_mod::lemma_mod_mod(a, 3, 10);
    vstd::arithmetic::div_mod::lemma_mod_mod(a, 5, 6);
    vstd::arithmetic::div_mod::lemma_mod_mod(b, 2, 15);
    vstd::arithmetic::div_mod::lemma_mod_mod(b, 3, 10);
    vstd::arithmetic::div_mod::lemma_mod_mod(b, 5, 6);
    vstd::arithmetic::div_mod::lemma_mod_mod(a * b, 2, 15);
    vstd::arithmetic::div_mod::lemma_mod_mod(a * b, 3, 10);
    vstd::arithmetic::div_mod::lemma_mod_mod(a * b, 5, 6);
    vstd::arithmetic::div_mod::lemma_mul_mod_noop(a, b, 2);
    vstd::arithmetic::div_mod::lemma_mul_mod_noop(a, b, 3);
    vstd::arithmetic::div_mod::lemma_mul_mod_noop(a, b, 5);
    vstd::arithmetic::div_mod::lemma_mod_pos_bound(a, 2);
    vstd::arithmetic::div_mod::lemma_mod_pos_bound(b, 2);
    vstd::arithmetic::div_mod::lemma_mod_pos_bound(a, 3);
    vstd::arithmetic::div_mod::lemma_mod_pos_bound(b, 3);
    vstd::arithmetic::div_mod::lemma_mod_pos_bound(a, 5);
    vstd::arithmetic::div_mod::lemma_mod_pos_bound(b, 5);
    assert(((a % 2) * (b % 2)) % 2 != 0) by (nonlinear_arith)
        requires
            a % 2 == 1,
            b % 2 == 1,
    ;
    assert(((a % 3) * (b % 3)) % 3 != 0) by (nonlinear_arith)
        requires
            (a % 3 == 1 || a % 3 == 2) && (b % 3 == 1 || b % 3 == 2),
    ;
    assert(((a % 5) * (b % 5)) % 5 != 0) by (nonlinear_arith)
        requires
            1 <= a % 5 <= 4,
            1 <= b % 5 <= 4,
    ;
}

/// The only nonnegative coprime-30 value below 7 is 1.
pub proof fn lemma_wheel_low(x: int)
    requires
        0 <= x,
        coprime30(x),
        x != 1,
    ensures
        x >= 7,
{
    if x < 7 {
        vstd::arithmetic::div_mod::lemma_small_mod(x as nat, 30);
    }
}

/// Within a target range `[lo, hi]` with `s` the floor square root of `hi`,
/// the values the segmented sieve strikes — products of a prime in `[7, s]`
/// and a coprime-30 multiplier of at least 7 — are exactly the coprime-30
/// composites other than 1.
pub open spec fn sieved_out(x: int, s: int, lo: int, hi: int) -> bool {
    exists|p: int, m: int|
        is_prime_spec(p) && 7 <= p <= s && coprime30(m) && 7 <= m && x == p * m && lo <= #[trigger] (
        p * m) <= hi
}

/// Soundness and completeness of the wheel sieve's strike set: a coprime-30
/// value in the target range other than 1 is struck exactly when it is
/// composite.
pub proof fn lemma_sieved_out_iff_composite(x: int, s: int, lo: int, hi: int)
    requires
        coprime30(x),
        0 <= lo <= x <= hi,
        x != 1,
        s == isqrt_spec(hi),
    ensures
        sieved_out(x, s, lo, hi) <==> !is_prime_spec(x),
{
    lemma_wheel_low(x);
    lemma_isqrt_spec_bounds(hi);
    if sieved_out(x, s, lo, hi) {
        let (p, m): (int, int) = choose|p: int, m: int|
            is_prime_spec(p) && 7 <= p <= s && coprime30(m) && 7 <= m && x == p * m && lo
                <= #[trigger] (p * m) <= hi;
        assert(p < x && x % p == 0 && x >= 2) by (nonlinear_arith)
            requires
                x == p * m,
                7 <= p,
                7 <= m,
        ;
        lemma_has_divisor_iff(x, 2, x - 1);
        assert(!is_prime_spec(x));
    }
    if !is_prime_spec(x) {
        lemma_composite_has_small_prime_factor(x);
        let p = choose|p: int| is_prime_spec(p) && #[trigger] (x % p) == 0 && p * p <= x;
        lemma_divisor_le(p, x);
        let m = x / p;
        assert(x == p * m);
        lemma_coprime30_factor(p, m);
        lemma_prime_is_wheel(p);
        assert(m != 1) by {
            if m == 1 {
                assert(x == p * 1 == p);
            }
        }
        lemma_wheel_low(m);
        assert(p <= s) by (nonlinear_arith)
            requires
                0 <= s,
                0 <= p,
                p * p <= x <= hi,
                hi < ((s + 1) * (s + 1)),
        ;
        assert(is_prime_spec(p) && 7 <= p <= s && coprime30(m) && 7 <= m && x == p * m && lo <= p
            * m <= hi);
    }
}

/// A difference of two multiples of `p` is a multiple of `p`.
proof fn lemma_mod_difference_zero(p: int, a: int, b: int)
    requires
        1 <= p,
        a % p == 0,
        b % p == 0,
    ensures
        (a - b) % p == 0,
{
    lemma_fundamental_div_mod(a, p);
    lemma_fundamental_div_mod(b, p);
    assert(a - b == p * (a / p - b / p)) by (nonlinear_arith)
        requires
            a == p * (a / p),
            b == p * (b / p),
    ;
    lemma_mod_multiples_basic(a / p - b / p, p);
    vstd::arithmetic::mul::lemma_mul_is_commutative(p, a / p - b / p);
}

/// A multiple of a multiple of `p` is a multiple of `p`.
proof fn lemma_mod_scaled_zero(p: int, q: int, m: int)
    requires
        1 <= p,
        m % p == 0,
    ensures
        (q * m) % p == 0,
{
    lemma_fundamental_div_mod(m, p);
    assert(q * m == p * (q * (m / p))) by (nonlinear_arith)
        requires
            m == p * (m / p),
    ;
    lemma_mod_multiples_basic(q * (m / p), p);
    vstd::arithmetic::mul::lemma_mul_is_commutative(p, q * (m / p));
}

/// The descent at the heart of Euclid's lemma: a factor strictly between 0
/// and the prime can be peeled off a product the prime divides.
proof fn lemma_euclid_descent(p: int, a: int, b: int)
    requires
        is_prime_spec(p),
        0 < a < p,
        0 <= b,
        (a * b) % p == 0,
    ensures
        b % p == 0,
    decreases a,
{
    if a == 1 {
        assert(1 * b == b);
    } else {
        lemma_fundamental_div_mod(p, a);
        let q = p / a;
        let r = p % a;
        vstd::arithmetic::div_mod::lemma_mod_pos_bound(p, a);
        if r == 0 {
            // the prime would have the proper divisor a
            lemma_has_divisor_iff(p, 2, p - 1);
            assert(2 <= a <= p - 1 && p % a == 0);
            assert(false);
        }
        assert(r * b == p * b - q * (a * b)) by (nonlinear_arith)
            requires
                p == a * q + r,
        ;
        assert((p * b) % p == 0) by {
            lemma_mod_multiples_basic(b, p);
            vstd::arithmetic::mul::lemma_mul_is_commutative(p, b);
        }
        lemma_mod_scaled_zero(p, q, a * b);
        lemma_mod_difference_zero(p, p * b, q * (a * b));
        lemma_euclid_descent(p, r, b);
    }
}

/// Euclid's lemma: a prime dividing a product divides one of the factors.
pub proof fn lemma_euclid(p: int, a: int, b: int)
    requires
        is_prime_spec(p),
        0 <= a,
        0 <= b,
        (a * b) % p == 0,
    ensures
        a % p == 0 || b % p == 0,
{
    let a2 = a % p;
    vstd::arithmetic::div_mod::lemma_mod_pos_bound(a, p);
    if a2 != 0 {
        vstd::arithmetic::div_mod::lemma_mul_mod_noop_general(a, b, p);
        assert((a2 * b) % p == 0);
        lemma_euclid_descent(p, a2, b);
    }
}

/// A prime dividing a power of a value divides the value itself.
pub proof fn lemma_prime_divides_pow(p: int, q: int, m: nat)
    requires
        is_prime_spec(p),
        1 <= q,
        pow(q, m) % p == 0,
    ensures
        q % p == 0,
    decreases m,
{
    vstd::arithmetic::power::lemma_pow_positive(q, m);
    if m == 0 {
        vstd::arithmetic::power::lemma_pow0(q);
        vstd::arithmetic::div_mod::lemma_small_mod(1, p as nat);
        assert(false);
    } else {
        assert(pow(q, m) == q * pow(q, (m - 1) as nat)) by {
            reveal(vstd::arithmetic::power::pow);
        }
        vstd::arithmetic::power::lemma_pow_positive(q, (m - 1) as nat);
        lemma_euclid(p, q, pow(q, (m - 1) as nat));
        if pow(q, (m - 1) as nat) % p == 0 {
            lemma_prime_divides_pow(p, q, (m - 1) as nat);
        }
    }
}

/// A prime dividing a prime is that prime.
pub proof fn lemma_prime_divides_prime(p: int, q: int)
    requires
        is_prime_spec(p),
        is_prime_spec(q),
        q % p == 0,
    ensures
        p == q,
{
    lemma_divisor_le(p, q);
    if p < q {
        lemma_has_divisor_iff(q, 2, q - 1);
        assert(2 <= p <= q - 1 && q % p == 0);
    }
}

/// Dividing out one prime the divisor avoids: if `c` divides `p * x` and the
/// prime `p` does not divide `c`, then `c` divides `x` alone.
proof fn lemma_prime_coprime_cancel(p: int, c: int, x: int)
    requires
        is_prime_spec(p),
        1 <= c,
        0 <= x,
        c % p != 0,
        (p * x) % c == 0,
    ensures
        x % c == 0,
{
    lemma_fundamental_div_mod(p * x, c);
    vstd::arithmetic::mul::lemma_mul_nonnegative(p, x);
    vstd::arithmetic::div_mod::lemma_div_pos_is_pos(p * x, c);
    let k = (p * x) / c;
    assert(p * x == c * k);
    assert((c * k) % p == 0) by {
        lemma_mod_multiples_basic(x, p);
        vstd::arithmetic::mul::lemma_mul_is_commutative(p, x);
    }
    lemma_euclid(p, c, k);
    assert(k % p == 0);
    lemma_fundamental_div_mod(k, p);
    assert(x == c * (k / p)) by (nonlinear_arith)
        requires
            p * x == c * k,
            k == p * (k / p),
            2 <= p,
    ;
    lemma_mod_multiples_basic(k / p, c);
    vstd::arithmetic::mul::lemma_mul_is_commutative(c, k / p);
}

/// Dividing out a whole prime power the divisor avoids.
pub proof fn lemma_prime_pow_coprime_cancel(p: int, j: nat, c: int, x: int)
    requires
        is_prime_spec(p),
        1 <= c,
        0 <= x,
        c % p != 0,
        (pow(p, j) * x) % c == 0,
    ensures
        x % c == 0,
    decreases j,
{
    if j == 0 {
        vstd::arithmetic::power::lemma_pow0(p);
        assert(1 * x == x);
    } else {
        vstd::arithmetic::power::lemma_pow_positive(p, (j - 1) as nat);
        assert(pow(p, j) == p * pow(p, (j - 1) as nat)) by {
            reveal(vstd::arithmetic::power::pow);
        }
        assert(pow(p, j) * x == p * (pow(p, (j - 1) as nat) * x)) by (nonlinear_arith)
            requires
                pow(p, j) == p * pow(p, (j - 1) as nat),
        ;
        vstd::arithmetic::mul::lemma_mul_nonnegative(pow(p, (j - 1) as nat), x);
        lemma_prime_coprime_cancel(p, c, pow(p, (j - 1) as nat) * x);
        lemma_prime_pow_coprime_cancel(p, (j - 1) as nat, c, x);
    }
}

/// The multiplicity of the prime `p` in `x`: how often `p` divides it.
pub open spec fn pval(p: int, x: int) -> nat
    decreases x,
    via pval_decreases
{
    if 2 <= p && 1 <= x && x % p == 0 {
        (1 + pval(p, x / p)) as nat
    } else {
        0
    }
}

#[via_fn]
proof fn pval_decreases(p: int, x: int) {
    if 2 <= p && 1 <= x && x % p == 0 {
        lemma_divisor_le(p, x);
        vstd::arithmetic::div_mod::lemma_div_decreases(x, p);
        vstd::arithmetic::div_mod::lemma_div_pos_is_pos(x, p);
    }
}

/// Every positive value splits into its `p`-power part and a cofactor that
/// `p` no longer divides.
pub proof fn lemma_pval_decompose(p: int, x: int)
    requires
        2 <= p,
        1 <= x,
    ensures
        exists|c: int|
            1 <= c && c % p != 0 && x == #[trigger] (pow(p, pval(p, x)) * c),
    decreases x,
{
    if x % p != 0 {
        vstd::arithmetic::power::lemma_pow0(p);
        assert(x == pow(p, pval(p, x)) * x);
    } else {
        lemma_divisor_le(p, x);
        vstd::arithmetic::div_mod::lemma_div_decreases(x, p);
        vstd::arithmetic::div_mod::lemma_div_pos_is_pos(x, p);
        let x1 = x / p;
        lemma_fundamental_div_mod(x, p);
        lemma_pval_decompose(p, x1);
        let c = choose|c: int|
            1 <= c && c % p != 0 && x1 == #[trigger] (pow(p, pval(p, x1)) * c);
        assert(pow(p, pval(p, x)) == p * pow(p, pval(p, x1))) by {
            reveal(vstd::arithmetic::power::pow);
        }
        assert(x == pow(p, pval(p, x)) * c) by (nonlinear_arith)
            requires
                x == p * x1,
                x1 == pow(p, pval(p, x1)) * c,
                pow(p, pval(p, x)) == p * pow(p, pval(p, x1)),
        ;
    }
}

/// The multiplicity reads off a product of a `p`-power and a `p`-free
/// cofactor.
pub proof fn lemma_pval_of_shifted(p: int, e: nat, c: int)
    requires
        2 <= p,
        1 <= c,
        c % p != 0,
    ensures
        pval(p, pow(p, e) * c) == e,
    decreases e,
{
    vstd::arithmetic::power::lemma_pow_positive(p, e);
    if e == 0 {
        vstd::arithmetic::power::lemma_pow0(p);
        assert(pow(p, e) == 1);
        assert(pow(p, e) * c == 1 * c);
        assert(1 * c == c);
    } else {
        vstd::arithmetic::power::lemma_pow_positive(p, (e - 1) as nat);
        assert(pow(p, e) == p * pow(p, (e - 1) as nat)) by {
            reveal(vstd::arithmetic::power::pow);
        }
        let y = pow(p, (e - 1) as nat) * c;
        assert(pow(p, e) * c == p * y) by (nonlinear_arith)
            requires
                pow(p, e) == p * pow(p, (e - 1) as nat),
                y == pow(p, (e - 1) as nat) * c,
        ;
        assert(1 <= y) by (nonlinear_arith)
            requires
                y == pow(p, (e - 1) as nat) * c,
                1 <= pow(p, (e - 1) as nat),
                1 <= c,
        ;
        assert((p * y) % p == 0) by {
            lemma_mod_multiples_basic(y, p);
            vstd::arithmetic::mul::lemma_mul_is_commutative(p, y);
        }
        assert(1 <= p * y) by (nonlinear_arith)
            requires
                2 <= p,
                1 <= y,
        ;
        assert((p * y) / p == y) by {
            vstd::arithmetic::div_mod::lemma_div_multiples_vanish(y, p);
        }
        lemma_pval_of_shifted(p, (e - 1) as nat, c);
    }
}

/// Prime counting splits at any point of the range.
pub proof fn lemma_prime_count_split(lo: int, mid: int, hi: int)
    requires
        lo - 1 <= mid <= hi,
    ensures
        prime_count(lo, hi) == prime_count(lo, mid) + prime_count(mid + 1, hi),
    decreases hi - mid,
{
    if mid == hi {
    } else {
        lemma_prime_count_split(lo, mid, hi - 1);
    }
}

/// Wheel-prime counting splits at any point of the range.
pub proof fn lemma_wheel_count_split(lo: int, mid: int, hi: int)
    requires
        lo - 1 <= mid <= hi,
    ensures
        wheel_prime_count(lo, hi) == wheel_prime_count(lo, mid) + wheel_prime_count(mid + 1, hi),
    decreases hi - mid,
{
    if mid == hi {
    } else {
        lemma_wheel_count_split(lo, mid, hi - 1);
    }
}

/// Every prime in a nonnegative range is either 2, 3, 5 or a wheel prime, so
/// the two counts differ by exactly the small primes the range holds.
pub proof fn lemma_count_decomposition(lo: int, hi: int)
    requires
        0 <= lo,
    ensures
        prime_count(lo, hi) == wheel_prime_count(lo, hi) + small_primes_in(lo, hi),
    decreases hi - lo + 1,
{
    if lo > hi {
    } else {
        lemma_count_decomposition(lo, hi - 1);
        lemma_small_primes();
        if is_prime_spec(hi) && hi != 2 && hi != 3 && hi != 5 {
            lemma_prime_is_wheel(hi);
        }
        if coprime30(hi) && (hi == 2 || hi == 3 || hi == 5) {
            assert(false) by {
                vstd::arithmetic::div_mod::lemma_small_mod(hi as nat, 30);
            }
        }
    }
}

/// Wheel primes are at least 7, so no range holds more of them than it holds
/// integers of at least 7.
pub proof fn lemma_wheel_count_bound(lo: int, hi: int)
    ensures
        wheel_prime_count(lo, hi) <= (if hi >= 7 {
            hi - 6
        } else {
            0int
        }),
    decreases hi - lo + 1,
{
    if lo <= hi {
        lemma_wheel_count_bound(lo, hi - 1);
        if is_prime_spec(hi) && coprime30(hi) {
            if hi == 2 || hi == 3 || hi == 5 {
                vstd::arithmetic::div_mod::lemma_small_mod(hi as nat, 30);
            }
            lemma_prime_is_wheel(hi);
        }
    }
}

/// A range without primes counts zero.
pub proof fn lemma_prime_count_zero(lo: int, hi: int)
    requires
        forall|q: int| lo <= q <= hi ==> !is_prime_spec(q),
    ensures
        prime_count(lo, hi) == 0,
    decreases hi - lo + 1,
{
    if lo <= hi {
        lemma_prime_count_zero(lo, hi - 1);
    }
}

/// Counting primes from 0 and from 2 is the same: there is none below 2.
pub proof fn lemma_prime_count_from_zero(hi: int)
    ensures
        prime_count(0, hi) == prime_count(2, hi),
{
    lemma_small_primes();
    assert(prime_count(0, -1) == 0);
    assert(prime_count(0, 0) == 0);
    assert(prime_count(0, 1) == 0);
    if hi >= 1 {
        lemma_prime_count_split(0, 1, hi);
    } else {
        assert(prime_count(2, hi) == 0);
        if hi == 0 {
            assert(prime_count(0, hi) == 0);
        } else {
            assert(prime_count(0, hi) == 0) by {
                lemma_prime_count_reversed(0, hi);
            }
        }
    }
}

/// The counts of primes up to 2 through 6: the primes there are 2, 3 and 5.
pub proof fn lemma_prime_count_small()
    ensures
        prime_count(2, 1) == 0,
        prime_count(2, 2) == 1,
        prime_count(2, 3) == 2,
        prime_count(2, 4) == 2,
        prime_count(2, 5) == 3,
        prime_count(2, 6) == 3,
{
    lemma_small_primes();
    assert(prime_count(2, 1) == 0);
    assert(prime_count(2, 2) == 1);
    assert(prime_count(2, 3) == 2);
    assert(prime_count(2, 4) == 2);
    assert(prime_count(2, 5) == 3);
    assert(prime_count(2, 6) == 3);
}

/// Whether `s` lists, in strictly ascending order, exactly the primes in
/// `[lo, hi]`.
pub open spec fn lists_primes_between(s: Seq<u64>, lo: int, hi: int) -> bool {
    &&& forall|i: int, j: int| 0 <= i < j < s.len() ==> s[i] < s[j]
    &&& forall|i: int| 0 <= i < s.len() ==> lo <= #[trigger] s[i] <= hi && is_prime_spec(s[i] as int)
    &&& forall|x: int| lo <= x <= hi && is_prime_spec(x) ==> s.contains(x as u64)
}

/// In a complete ascending list of the primes of `[lo, hi]`, the i-th entry
/// is the (i+1)-th prime at or above `lo`.
pub proof fn lemma_prime_list_index(s: Seq<u64>, lo: int, hi: int, i: int)
    requires
        lists_primes_between(s, lo, hi),
        0 <= lo,
        hi <= u64::MAX,
        0 <= i < s.len(),
    ensures
        prime_count(lo, s[i] as int) == i + 1,
    decreases i,
{
    if i == 0 {
        lemma_prime_count_zero_below(s, lo, hi, lo, s[0] as int - 1);
        lemma_prime_count_split(lo, s[0] as int - 1, s[0] as int);
    } else {
        lemma_prime_list_index(s, lo, hi, i - 1);
        lemma_prime_count_zero_below(s, lo, hi, s[i - 1] as int + 1, s[i] as int - 1);
        lemma_prime_count_split(lo, s[i - 1] as int, s[i] as int);
        lemma_prime_count_split(s[i - 1] as int + 1, s[i] as int - 1, s[i] as int);
    }
}

/// A stretch of `[lo, hi]` that avoids every entry of a complete prime list
/// holds no prime at all.
proof fn lemma_prime_count_zero_below(s: Seq<u64>, lo: int, hi: int, a: int, b: int)
    requires
        lists_primes_between(s, lo, hi),
        0 <= lo,
        hi <= u64::MAX,
        lo <= a,
        b <= hi,
        forall|j: int| 0 <= j < s.len() ==> !(a <= #[trigger] s[j] <= b),
    ensures
        prime_count(a, b) == 0,
{
    assert forall|q: int| a <= q <= b implies !is_prime_spec(q) by {
        if is_prime_spec(q) {
            assert(s.contains(q as u64));
            let j = choose|j: int| 0 <= j < s.len() && s[j] == q as u64;
            assert(!(a <= s[j] <= b));
        }
    }
    lemma_prime_count_zero(a, b);
}

/// A complete ascending list of the primes of `[lo, hi]` has exactly as many
/// entries as the range has primes.
pub proof fn lemma_prime_list_len(s: Seq<u64>, lo: int, hi: int)
    requires
        lists_primes_between(s, lo, hi),
        0 <= lo,
        hi <= u64::MAX,
    ensures
        prime_count(lo, hi) == s.len(),
{
    if s.len() == 0 {
        lemma_prime_count_zero_below(s, lo, hi, lo, hi);
    } else {
        let last = s.len() - 1;
        lemma_prime_list_index(s, lo, hi, last);
        lemma_prime_count_zero_below(s, lo, hi, s[last] as int + 1, hi);
        lemma_prime_count_split(lo, s[last] as int, hi);
    }
}

/// Counting primes from 2 equals counting from any start up to 7, plus the
/// small primes 2, 3 and 5 that such a start skips.
pub proof fn lemma_prime_count_small_start(s: int, e: int)
    requires
        0 <= s <= 7,
        s <= e,
    ensures
        prime_count(2, e) == prime_count(s, e) + small_primes_in(0, s - 1),
{
    lemma_small_primes();
    lemma_prime_count_small();
    if s == 0 {
        lemma_prime_count_from_zero(e);
    } else if s == 1 {
        lemma_prime_count_split(1, 1, e);
        assert(prime_count(1, 1) == prime_count(1, 0));
        assert(prime_count(1, 0) == 0);
    } else if s == 2 {
    } else {
        lemma_prime_count_split(2, s - 1, e);
        assert(prime_count(2, s - 1) == small_primes_in(0, s - 1));
    }
}

/// Widening a range cannot lose primes.
pub proof fn lemma_prime_count_monotone(lo: int, hi: int, lo2: int, hi2: int)
    requires
        lo2 <= lo,
        hi <= hi2,
    ensures
        prime_count(lo, hi) <= prime_count(lo2, hi2),
{
    if lo > hi {
    } else {
        lemma_prime_count_split(lo2, lo - 1, hi2);
        lemma_prime_count_split(lo, hi, hi2);
    }
}

/// A range holds no more primes than integers.
pub proof fn lemma_prime_count_upper(lo: int, hi: int)
    requires
        2 <= lo,
    ensures
        prime_count(lo, hi) <= (if hi >= lo {
            hi - lo + 1
        } else {
            0int
        }),
    decreases hi - lo + 1,
{
    if lo <= hi {
        lemma_prime_count_upper(lo, hi - 1);
    }
}

/// A count over an empty or reversed range is zero.
pub proof fn lemma_prime_count_reversed(lo: int, hi: int)
    requires
        lo > hi,
    ensures
        prime_count(lo, hi) == 0,
{
}

/// For a positive `p`, bounding the multiplier is the same as bounding the
/// product: `m <= e / p` exactly when `p * m <= e`, and `m >= ceil(s / p)`
/// exactly when `p * m >= s`.
pub proof fn lemma_multiplier_bounds(p: int, m: int, s: int, e: int)
    requires
        1 <= p,
        0 <= m,
        0 <= s,
        0 <= e,
    ensures
        (m <= e / p) <==> (p * m <= e),
        (m >= s / p + (if s % p == 0 { 0int } else { 1int })) <==> (p * m >= s),
{
    lemma_fundamental_div_mod(e, p);
    lemma_fundamental_div_mod(s, p);
    vstd::arithmetic::div_mod::lemma_mod_pos_bound(e, p);
    vstd::arithmetic::div_mod::lemma_mod_pos_bound(s, p);
    assert((m <= e / p) <==> (p * m <= e)) by (nonlinear_arith)
        requires
            1 <= p,
            0 <= m,
            e == p * (e / p) + e % p,
            0 <= e % p < p,
    ;
    assert((m >= s / p + (if s % p == 0 { 0int } else { 1int })) <==> (p * m >= s))
        by (nonlinear_arith)
        requires
            1 <= p,
            0 <= m,
            s == p * (s / p) + s % p,
            0 <= s % p < p,
    ;
}

} // verus!
