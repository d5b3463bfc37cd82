//! The general laws the library states about itself, each proved from the
//! public contracts and specification functions alone.

use vstd::prelude::*;

verus! {

use crate::theory::{
    is_prime_spec, has_divisor_in, prime_count, wheel_prime_count, small_primes_in, isqrt_spec,
};
use crate::data::prime_data::PrimeData;
use crate::data::factors::{Factorization, product_of, combo_count};

/// Counting is independent of how the store was generated: a store built
/// exactly for `[0, n]` reports as its total (`count_primes` pins it to the
/// prime count of its own range) the same number that any wider well-formed
/// store reports when queried over `[0, n]` (`count_primes_in_range` pins
/// that to the prime count of the queried range).
pub proof fn lemma_generation_order_independence(
    direct: PrimeData,
    common: PrimeData,
    n: u64,
    c_direct: u64,
    c_common: u64,
)
    requires
        direct.wf(),
        direct.start() == 0,
        direct.end() == n as int,
        common.wf(),
        common.start() == 0,
        n as int <= common.end(),
        c_direct as int == prime_count(direct.start(), direct.end()),
        c_common as int == prime_count(0, n as int),
    ensures
        c_direct == c_common,
{
}

/// Primality agrees with trial division by every integer in
/// `[2, isqrt(x)]`, for every value of at least 2: `is_prime` returns true
/// exactly when nothing in that window divides `x`.  (Values below 2 are not
/// prime although the window is empty for them, so they stay outside this
/// statement.)
pub proof fn lemma_trial_division_agreement(x: int)
    requires
        2 <= x,
    ensures
        is_prime_spec(x) == !has_divisor_in(x, 2, isqrt_spec(x)),
{
    crate::theory::lemma_isqrt_spec_bounds(x);
    let s = isqrt_spec(x);
    assert(s < x) by (nonlinear_arith)
        requires
            s * s <= x,
            0 <= s,
            2 <= x,
    ;
    crate::theory::lemma_has_divisor_iff(x, 2, s);
    crate::theory::lemma_has_divisor_iff(x, 2, x - 1);
    if !is_prime_spec(x) {
        crate::theory::lemma_composite_has_small_prime_factor(x);
        let p = choose|p: int| is_prime_spec(p) && #[trigger] (x % p) == 0 && p * p <= x;
        assert(p <= s) by (nonlinear_arith)
            requires
                p * p <= x,
                x < ((s + 1) * (s + 1)),
                0 <= s,
                2 <= p,
        ;
        assert(has_divisor_in(x, 2, s));
    }
}

/// The factorization round trip: multiplying every recorded `prime ^
/// multiplicity` back together reconstructs exactly the factorized number.
/// For a value of at least 1, the factorizing contract guarantees such a
/// well-formed factorization.
pub proof fn lemma_factorization_round_trip(f: Factorization, x: u64)
    requires
        x >= 1,
        f.wf(),
        f.value() == x as int,
    ensures
        product_of(f.pairs()) == x as int,
{
}

/// The number of divisor combinations a factorization describes is 1 exactly
/// when it represents 1, and 2 exactly when it represents a prime — the
/// length law of the divisor list.
pub proof fn lemma_all_factors_length(f: Factorization)
    requires
        f.wf(),
    ensures
        combo_count(f.pairs()) >= 1,
        combo_count(f.pairs()) == 1 <==> f.value() == 1,
        combo_count(f.pairs()) == 2 <==> is_prime_spec(f.value()),
{
    crate::data::factors::lemma_combo_count_shape(f.pairs());
}

/// A reversed range holds no primes: counting over it yields zero, whatever
/// its bounds.  (Operationally, `count_primes_in_range` answers this zero
/// for every reversed range within the store's coverage; for bounds outside
/// it, the containment check reports missing data first.)
pub proof fn lemma_count_reversed_range(a: int, b: int)
    requires
        a > b,
    ensures
        prime_count(a, b) == 0,
{
}

/// However a queried range aligns with the thirty-wide blocks — start on a
/// block boundary, end on one, or neither — the exact count decomposes into
/// the wheel primes the blocks store plus the unstored primes 2, 3 and 5,
/// which is precisely the recount the block-straddling counting performs.
pub proof fn lemma_block_count_recount(a: int, b: int)
    requires
        0 <= a,
    ensures
        prime_count(a, b) == wheel_prime_count(a, b) + small_primes_in(a, b),
{
    crate::theory::lemma_count_decomposition(a, b);
}

} // verus!
