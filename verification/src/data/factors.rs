//! Module dedicated to factorizing numbers

use vstd::prelude::*;

verus! {

use crate::data::prime_data::PrimeData;
use crate::data::error::{PrimeResult, PrimeError, ErrorAction};
use crate::theory::{is_prime_spec, isqrt_spec};
use vstd::arithmetic::power::pow;

/// The product of `prime ^ multiplicity` over a sequence of pairs.
pub open spec fn product_of(s: Seq<(u64, u32)>) -> int
    decreases s.len(),
{
    if s.len() == 0 {
        1
    } else {
        pow(s[0].0 as int, s[0].1 as nat) * product_of(s.skip(1))
    }
}

/// How many divisors the pairs describe: the product of `multiplicity + 1`
/// over the sequence.
pub open spec fn combo_count(s: Seq<(u64, u32)>) -> int
    decreases s.len(),
{
    if s.len() == 0 {
        1
    } else {
        (s[0].1 + 1) * combo_count(s.skip(1))
    }
}

/// Represents some number in its prime-factorized form: strictly ascending
/// prime keys, each with a positive multiplicity, whose prime powers multiply
/// back to the represented number.
pub struct Factorization {
    data: Vec<(u64, u32)>,
}

impl Factorization {
    /// The factor/multiplicity pairs, in ascending prime order.
    pub closed spec fn pairs(self) -> Seq<(u64, u32)> {
        self.data@
    }

    /// The number this factorization represents.
    pub open spec fn value(self) -> int {
        product_of(self.pairs())
    }

    /// Well-formed: keys strictly ascending and prime, multiplicities
    /// positive, and the represented number representable.
    pub open spec fn wf(self) -> bool {
        &&& forall|i: int, j: int|
            0 <= i < j < self.pairs().len() ==> self.pairs()[i].0 < self.pairs()[j].0
        &&& forall|i: int|
            0 <= i < self.pairs().len() ==> is_prime_spec(#[trigger] self.pairs()[i].0 as int)
                && self.pairs()[i].1 >= 1
        &&& self.value() <= u64::MAX
    }

    /// An empty factorization: it represents 1.
    pub(crate) fn new() -> (r: Self)
        ensures
            r.wf(),
            r.value() == 1,
            r.pairs().len() == 0,
    {
        Self { data: Vec::new() }
    }

    /// Whether the factorization holds no factors (it represents 1).
    pub(crate) fn is_empty(&self) -> (r: bool)
        ensures
            r == (self.pairs().len() == 0),
    {
        self.data.len() == 0
    }

    /// Records one more occurrence of a prime factor at least as large as
    /// every factor recorded so far.
    pub(crate) fn add_factor(&mut self, factor: u64)
        requires
            old(self).wf(),
            is_prime_spec(factor as int),
            old(self).pairs().len() == 0 || old(self).pairs().last().0 <= factor,
            old(self).value() * factor <= u64::MAX,
        ensures
            final(self).wf(),
            final(self).value() == old(self).value() * factor as int,
            final(self).pairs().len() >= 1,
            final(self).pairs().last().0 == factor,
            final(self).pairs().len() == 0 || final(self).pairs().last().0 <= factor,
    {
        proof {
            lemma_product_pairs_min(old(self).pairs());
        }
        let len = self.data.len();
        if len > 0 && self.data[len - 1].0 == factor {
            let (p, m) = self.data[len - 1];
            proof {
                // the recorded power of this prime alone stays representable,
                // so the multiplicity has plenty of room left
                lemma_product_split(self.pairs(), len as int - 1);
                lemma_product_pairs_min(self.pairs().take(len as int - 1));
                assert(product_of(self.pairs().skip(len as int - 1)) == pow(p as int, m as nat)
                    * product_of(self.pairs().skip(len as int))) by {
                    assert(self.pairs().skip(len as int - 1).skip(1) =~= self.pairs().skip(
                        len as int,
                    ));
                }
                assert(self.pairs().skip(len as int) =~= Seq::<(u64, u32)>::empty());
                lemma_pow_le_product(self.pairs(), len as int - 1);
                lemma_pow_exp_bound(p as int, m as nat);
            }
            self.data[len - 1] = (p, m + 1);
            proof {
                let news = self.pairs();
                let olds = old(self).pairs();
                assert(news.take(len as int - 1) =~= olds.take(len as int - 1));
                lemma_product_split(olds, len as int - 1);
                lemma_product_split(news, len as int - 1);
                assert(news.skip(len as int - 1).skip(1) =~= Seq::<(u64, u32)>::empty());
                assert(olds.skip(len as int - 1).skip(1) =~= Seq::<(u64, u32)>::empty());
                assert(product_of(Seq::<(u64, u32)>::empty()) == 1);
                let xs = news.skip(len as int - 1);
                let ys = olds.skip(len as int - 1);
                assert(xs[0] == (p, (m + 1) as u32));
                assert(ys[0] == (p, m));
                assert(xs.len() == 1 && ys.len() == 1);
                assert(xs =~= Seq::<(u64, u32)>::empty().push((p, (m + 1) as u32)));
                assert(ys =~= Seq::<(u64, u32)>::empty().push((p, m)));
                lemma_product_push(Seq::<(u64, u32)>::empty(), (p, (m + 1) as u32));
                lemma_product_push(Seq::<(u64, u32)>::empty(), (p, m));
                assert(product_of(xs) == pow(p as int, (m + 1) as nat));
                assert(product_of(ys) == pow(p as int, m as nat));
                vstd::arithmetic::power::lemma_pow_adds(p as int, m as nat, 1);
                vstd::arithmetic::power::lemma_pow1(p as int);
                let a = product_of(olds.take(len as int - 1));
                assert(a * (pow(p as int, m as nat) * p as int) == (a * pow(p as int, m as nat))
                    * p as int) by (nonlinear_arith);
            }
        } else {
            let ghost olds = self.pairs();
            self.data.push((factor, 1));
            proof {
                assert(self.pairs().take(olds.len() as int) =~= olds);
                lemma_product_push(olds, (factor, 1));
                vstd::arithmetic::power::lemma_pow1(factor as int);
            }
        }
    }

    /// Converts the factorization into the original number without consuming
    /// itself
    pub fn as_u64(&self) -> (r: u64)
        requires
            self.wf(),
        ensures
            r as int == self.value(),
    {
        let mut acc: u64 = 1;
        let mut i: usize = 0;
        proof {
            assert(self.pairs().take(0) =~= Seq::<(u64, u32)>::empty());
        }
        while i < self.data.len()
            invariant
                self.wf(),
                i <= self.pairs().len(),
                acc as int == product_of(self.pairs().take(i as int)),
            decreases self.pairs().len() - i,
        {
            let (p, m) = self.data[i];
            proof {
                lemma_take_step(self.pairs(), i as int);
                lemma_product_split(self.pairs(), i as int + 1);
                lemma_product_pairs_min(self.pairs().skip(i as int + 1));
                let a = product_of(self.pairs().take(i as int));
                let b = pow(p as int, m as nat);
                let c = product_of(self.pairs().skip(i as int + 1));
                lemma_product_pairs_min(self.pairs().take(i as int));
                vstd::arithmetic::power::lemma_pow_positive(p as int, m as nat);
                assert(a * b <= (a * b) * c) by (nonlinear_arith)
                    requires
                        1 <= a,
                        1 <= b,
                        1 <= c,
                ;
                assert(b <= a * b) by (nonlinear_arith)
                    requires
                        1 <= a,
                        1 <= b,
                ;
            }
            let pw = pow_u64(p, m);
            proof {
                let a = product_of(self.pairs().take(i as int));
                let b = pow(p as int, m as nat);
                assert(a * b <= u64::MAX);
            }
            acc = acc * pw;
            i = i + 1;
        }
        proof {
            assert(self.pairs().take(self.pairs().len() as int) =~= self.pairs());
        }
        acc
    }

    /// Retrieves the factorization as a vector of `(prime, multiplicity)`
    /// pairs, in ascending prime order
    ///
    /// Note that if the vector is empty, the original number is 1.
    pub fn as_tuples(&self) -> (r: Vec<(u64, u32)>)
        ensures
            r@ == self.pairs(),
    {
        let mut out: Vec<(u64, u32)> = Vec::new();
        let mut i: usize = 0;
        while i < self.data.len()
            invariant
                i <= self.pairs().len(),
                out@ == self.pairs().take(i as int),
            decreases self.pairs().len() - i,
        {
            out.push(self.data[i]);
            proof {
                assert(out@ =~= self.pairs().take(i as int + 1));
            }
            i = i + 1;
        }
        proof {
            assert(self.pairs().take(self.pairs().len() as int) =~= self.pairs());
        }
        out
    }

    /// Retrieves all possible factors of the factorized number, sorted
    /// strictly ascending, by multiplying every combination of its prime
    /// powers
    ///
    /// The vector holds exactly one entry per combination of multiplicities:
    /// its length is the product of `multiplicity + 1` over all factors, so
    /// it is 1 exactly for the number 1, and 2 exactly for a prime.  Every
    /// entry divides the factorized number, every divisor of the number
    /// appears, and the list runs from 1 up to the number itself.
    pub fn all_factors(&self) -> (r: Vec<u64>)
        requires
            self.wf(),
        ensures
            r@.len() == combo_count(self.pairs()),
            forall|j: int, j2: int| 0 <= j < j2 < r@.len() ==> #[trigger] r@[j] < #[trigger] r@[j2],
            forall|j: int| 0 <= j < r@.len() ==> 1 <= #[trigger] r@[j],
            forall|j: int| 0 <= j < r@.len() ==> self.value() % (#[trigger] r@[j] as int) == 0,
            forall|d: int| 1 <= d && #[trigger] (self.value() % d) == 0 ==> r@.contains(d as u64),
            r@.len() >= 1,
            r@[0] == 1,
            r@[r@.len() - 1] as int == self.value(),
    {
        let combos = self.factor_combos(0);
        let ghost cs = combos@;
        let mut vector = combos;
        sort_u64(&mut vector);
        proof {
            lemma_product_split(self.pairs(), 0);
            assert(self.pairs().take(0) =~= Seq::<(u64, u32)>::empty());
            assert(self.pairs().skip(0) =~= self.pairs());
            lemma_product_pairs_min(self.pairs());
            // each sorted entry is one of the combinations
            assert forall|j: int| 0 <= j < vector@.len() implies 1 <= #[trigger] vector@[j]
                && self.value() % (vector@[j] as int) == 0 by {
                let e = vector@[j];
                vstd::seq_lib::to_multiset_contains(vector@, e);
                vstd::seq_lib::to_multiset_contains(cs, e);
                assert(vector@.contains(e));
                assert(cs.contains(e));
                let j0 = choose|j0: int| 0 <= j0 < cs.len() && cs[j0] == e;
                assert(1 <= cs[j0] && product_of(self.pairs().skip(0)) % (cs[j0] as int) == 0);
            }
            // every divisor appears among the combinations, so it survives
            // the sort
            assert forall|d: int| 1 <= d && #[trigger] (self.value() % d) == 0 implies vector@
                .contains(d as u64) by {
                assert(cs.contains(d as u64));
                vstd::seq_lib::to_multiset_contains(cs, d as u64);
                vstd::seq_lib::to_multiset_contains(vector@, d as u64);
            }
            // the combinations are pairwise distinct, so the sorted list
            // ascends strictly
            assert(cs.no_duplicates()) by {
                assert forall|j1: int, j2: int|
                    0 <= j1 < cs.len() && 0 <= j2 < cs.len() && j1 != j2 implies cs[j1] != cs[
                    j2] by {
                    if j1 < j2 {
                        assert(cs[j1] != cs[j2]);
                    } else {
                        assert(cs[j2] != cs[j1]);
                    }
                }
            }
            cs.lemma_multiset_has_no_duplicates();
            assert forall|x: u64| vector@.to_multiset().contains(x) implies vector@.to_multiset()
                .count(x) == 1 by {
                assert(cs.to_multiset().contains(x) ==> cs.to_multiset().count(x) == 1);
            }
            vector@.lemma_multiset_has_no_duplicates_conv();
            assert forall|j: int, j2: int| 0 <= j < j2 < vector@.len() implies #[trigger] vector@[j]
                < #[trigger] vector@[j2] by {
                assert(vector@[j] <= vector@[j2]);
                assert(vector@[j] != vector@[j2]);
            }
            // with 1 and the number both present, they sit at the ends
            assert(self.value() % 1 == 0);
            assert(self.value() % self.value() == 0) by {
                vstd::arithmetic::div_mod::lemma_mod_self_0(self.value());
            }
            assert(vector@.contains(1u64));
            let jone = choose|j: int| 0 <= j < vector@.len() && vector@[j] == 1u64;
            assert(vector@[0] <= vector@[jone]);
            let v64 = self.value() as u64;
            assert(vector@.contains(v64));
            let jall = choose|j: int| 0 <= j < vector@.len() && vector@[j] == v64;
            assert(vector@[jall] <= vector@[vector@.len() - 1]);
            let last = vector@[vector@.len() - 1];
            assert(self.value() % (last as int) == 0);
            crate::theory::lemma_divisor_le(last as int, self.value());
        }
        vector
    }

    // Builds, in some order, one product for every combination of prime
    // powers drawn from the pairs at index `i` onward: the entry at position
    // `j` is the head prime to the power `j / c` times the `(j % c)`-th
    // combination of the rest, where `c` counts the rest's combinations.
    fn factor_combos(&self, i: usize) -> (r: Vec<u64>)
        requires
            self.wf(),
            i <= self.pairs().len(),
        ensures
            r@.len() == combo_count(self.pairs().skip(i as int)),
            forall|j: int| 0 <= j < r@.len() ==> 1 <= #[trigger] r@[j],
            forall|j: int|
                0 <= j < r@.len() ==> product_of(self.pairs().skip(i as int)) % (
                #[trigger] r@[j] as int) == 0,
            forall|j1: int, j2: int| 0 <= j1 < j2 < r@.len() ==> r@[j1] != r@[j2],
            forall|d: int|
                1 <= d && #[trigger] (product_of(self.pairs().skip(i as int)) % d) == 0
                    ==> r@.contains(d as u64),
        decreases self.pairs().len() - i,
    {
        if i == self.data.len() {
            let mut base: Vec<u64> = Vec::new();
            base.push(1);
            proof {
                assert(self.pairs().skip(i as int) =~= Seq::<(u64, u32)>::empty());
                assert(base@[0] == 1u64);
                assert forall|d: int| 1 <= d && #[trigger] (product_of(self.pairs().skip(
                    i as int,
                )) % d) == 0 implies base@.contains(d as u64) by {
                    crate::theory::lemma_divisor_le(d, 1);
                }
            }
            return base;
        }
        let inner_combos = self.factor_combos(i + 1);
        let (this_prime, amount) = self.data[i];
        let ghost rest = self.pairs().skip(i as int + 1);
        let ghost whole = self.pairs().skip(i as int);
        proof {
            assert(whole.skip(1) =~= rest);
            assert(whole[0] == self.pairs()[i as int]);
            lemma_product_pairs_min(rest);
            lemma_product_pairs_min(whole);
            vstd::arithmetic::power::lemma_pow_positive(this_prime as int, amount as nat);
            lemma_product_split(self.pairs(), i as int);
            lemma_product_pairs_min(self.pairs().take(i as int));
            assert(product_of(whole) <= self.value()) by (nonlinear_arith)
                requires
                    self.value() == product_of(self.pairs().take(i as int)) * product_of(whole),
                    1 <= product_of(self.pairs().take(i as int)),
                    1 <= product_of(whole),
            ;
            lemma_pow_le_product(self.pairs(), i as int);
            lemma_pow_exp_bound(this_prime as int, amount as nat);
            lemma_combo_count_rest(rest);
        }
        let mut combinations: Vec<u64> = Vec::new();
        let mut pw: u32 = 0;
        while pw <= amount
            invariant
                self.wf(),
                (i as int) < self.pairs().len(),
                (this_prime, amount) == self.pairs()[i as int],
                pw <= amount + 1,
                whole == self.pairs().skip(i as int),
                rest == self.pairs().skip(i as int + 1),
                product_of(whole) == pow(this_prime as int, amount as nat) * product_of(rest),
                product_of(whole) <= u64::MAX,
                1 <= product_of(rest),
                amount < 64,
                combo_count(rest) >= 1,
                inner_combos@.len() == combo_count(rest),
                forall|j: int| 0 <= j < inner_combos@.len() ==> 1 <= #[trigger] inner_combos@[j],
                forall|j: int|
                    0 <= j < inner_combos@.len() ==> product_of(rest) % (
                    #[trigger] inner_combos@[j] as int) == 0,
                combinations@.len() == pw as int * combo_count(rest),
                forall|j: int| 0 <= j < combinations@.len() ==> 1 <= #[trigger] combinations@[j],
                forall|j: int|
                    0 <= j < combinations@.len() ==> product_of(whole) % (
                    #[trigger] combinations@[j] as int) == 0,
                forall|j: int|
                    0 <= j < combinations@.len() ==> #[trigger] combinations@[j] as int == pow(
                        this_prime as int,
                        (j / combo_count(rest)) as nat,
                    ) * inner_combos@[j % combo_count(rest)] as int,
            decreases amount + 1 - pw,
        {
            proof {
                lemma_pow_factor_fits(this_prime as int, pw as nat, amount as nat, product_of(rest));
            }
            let new_factor = pow_u64(this_prime, pw);
            let mut k: usize = 0;
            while k < inner_combos.len()
                invariant
                    self.wf(),
                    new_factor as int == pow(this_prime as int, pw as nat),
                    pw <= amount,
                    (i as int) < self.pairs().len(),
                    (this_prime, amount) == self.pairs()[i as int],
                    whole == self.pairs().skip(i as int),
                    rest == self.pairs().skip(i as int + 1),
                    product_of(whole) == pow(this_prime as int, amount as nat) * product_of(rest),
                    product_of(whole) <= u64::MAX,
                    1 <= product_of(rest),
                    combo_count(rest) >= 1,
                    k <= inner_combos@.len(),
                    inner_combos@.len() == combo_count(rest),
                    forall|j: int| 0 <= j < inner_combos@.len() ==> 1 <= #[trigger] inner_combos@[j],
                    forall|j: int|
                        0 <= j < inner_combos@.len() ==> product_of(rest) % (
                        #[trigger] inner_combos@[j] as int) == 0,
                    combinations@.len() == pw as int * combo_count(rest) + k as int,
                    forall|j: int| 0 <= j < combinations@.len() ==> 1 <= #[trigger] combinations@[j],
                    forall|j: int|
                        0 <= j < combinations@.len() ==> product_of(whole) % (
                        #[trigger] combinations@[j] as int) == 0,
                    forall|j: int|
                        0 <= j < combinations@.len() ==> #[trigger] combinations@[j] as int == pow(
                            this_prime as int,
                            (j / combo_count(rest)) as nat,
                        ) * inner_combos@[j % combo_count(rest)] as int,
                decreases inner_combos@.len() - k,
            {
                let x = inner_combos[k];
                proof {
                    lemma_combo_product_divides(
                        this_prime as int,
                        pw as nat,
                        amount as nat,
                        x as int,
                        product_of(rest),
                        product_of(whole),
                    );
                }
                let ghost prevlen = combinations@.len();
                combinations.push(new_factor * x);
                proof {
                    vstd::arithmetic::div_mod::lemma_fundamental_div_mod_converse(
                        prevlen as int,
                        combo_count(rest),
                        pw as int,
                        k as int,
                    );
                    assert(prevlen as int / combo_count(rest) == pw as int);
                    assert(prevlen as int % combo_count(rest) == k as int);
                    assert(combinations@[prevlen as int] as int == pow(
                        this_prime as int,
                        pw as nat,
                    ) * inner_combos@[k as int] as int);
                }
                k = k + 1;
            }
            pw = pw + 1;
            proof {
                assert(pw as int * combo_count(rest) == (pw as int - 1) * combo_count(rest)
                    + combo_count(rest)) by (nonlinear_arith);
            }
        }
        proof {
            assert(combo_count(whole) == (amount + 1) as int * combo_count(rest));
            let p = this_prime as int;
            let cc = combo_count(rest);
            let w = product_of(whole);
            let rp = product_of(rest);
            assert(is_prime_spec(p) && amount >= 1) by {
                assert(is_prime_spec(self.pairs()[i as int].0 as int) && self.pairs()[i as int].1
                    >= 1);
            }
            // the head prime is smaller than, hence different from, every
            // prime of the rest, so it does not divide the rest's product
            assert forall|k2: int|
                0 <= k2 < rest.len() implies is_prime_spec(#[trigger] rest[k2].0 as int)
                && rest[k2].1 >= 1 && rest[k2].0 as int != p by {
                assert(rest[k2] == self.pairs()[k2 + i as int + 1]);
                assert(is_prime_spec(self.pairs()[k2 + i as int + 1].0 as int) && self.pairs()[k2
                    + i as int + 1].1 >= 1);
                assert(self.pairs()[i as int].0 < self.pairs()[k2 + i as int + 1].0);
            }
            lemma_prime_not_dividing_product(p, rest);
            assert(rp % p != 0);
            // no entry of the inner list carries the head prime either
            assert forall|j: int| 0 <= j < inner_combos@.len() implies (
            #[trigger] inner_combos@[j] as int) % p != 0 by {
                if inner_combos@[j] as int % p == 0 {
                    crate::theory::lemma_divides_trans(p, inner_combos@[j] as int, rp);
                }
            }
            // distinct: the head prime's multiplicity recovers the exponent,
            // and the inner entries are distinct themselves
            assert forall|j1: int, j2: int|
                0 <= j1 < j2 < combinations@.len() implies combinations@[j1] != combinations@[
            j2] by {
                vstd::arithmetic::div_mod::lemma_fundamental_div_mod(j1, cc);
                vstd::arithmetic::div_mod::lemma_mod_pos_bound(j1, cc);
                vstd::arithmetic::div_mod::lemma_fundamental_div_mod(j2, cc);
                vstd::arithmetic::div_mod::lemma_mod_pos_bound(j2, cc);
                let e1 = j1 / cc;
                let k1 = j1 % cc;
                let e2 = j2 / cc;
                let k2 = j2 % cc;
                vstd::arithmetic::div_mod::lemma_div_pos_is_pos(j1, cc);
                vstd::arithmetic::div_mod::lemma_div_pos_is_pos(j2, cc);
                let v1 = inner_combos@[k1] as int;
                let v2 = inner_combos@[k2] as int;
                crate::theory::lemma_pval_of_shifted(p, e1 as nat, v1);
                crate::theory::lemma_pval_of_shifted(p, e2 as nat, v2);
                if combinations@[j1] == combinations@[j2] {
                    assert(pow(p, e1 as nat) * v1 == pow(p, e2 as nat) * v2);
                    assert(e1 == e2);
                    vstd::arithmetic::power::lemma_pow_positive(p, e1 as nat);
                    assert(v1 == v2) by (nonlinear_arith)
                        requires
                            pow(p, e1 as nat) * v1 == pow(p, e1 as nat) * v2,
                            1 <= pow(p, e1 as nat),
                    ;
                    assert(k1 != k2);
                    if k1 < k2 {
                        assert(inner_combos@[k1] != inner_combos@[k2]);
                    } else {
                        assert(inner_combos@[k2] != inner_combos@[k1]);
                    }
                }
            }
            // complete: a divisor splits into a power of the head prime and
            // a divisor of the rest, both of which the construction covers
            assert forall|d: int| 1 <= d && #[trigger] (w % d) == 0 implies combinations@.contains(
                d as u64,
            ) by {
                crate::theory::lemma_divisor_le(d, w);
                let e = crate::theory::pval(p, d);
                crate::theory::lemma_pval_decompose(p, d);
                let c = choose|c: int| 1 <= c && c % p != 0 && d == #[trigger] (pow(p, e) * c);
                vstd::arithmetic::power::lemma_pow_positive(p, e);
                assert(d % pow(p, e) == 0) by {
                    vstd::arithmetic::div_mod::lemma_mod_multiples_basic(c, pow(p, e));
                    vstd::arithmetic::mul::lemma_mul_is_commutative(pow(p, e), c);
                }
                assert(d % c == 0) by {
                    vstd::arithmetic::div_mod::lemma_mod_multiples_basic(pow(p, e), c);
                }
                crate::theory::lemma_divides_trans(pow(p, e), d, w);
                crate::theory::lemma_divides_trans(c, d, w);
                assert(e <= amount as nat) by {
                    if e > amount as nat {
                        // the whole product would then carry the head prime
                        // beyond its multiplicity, forcing it into the rest
                        vstd::arithmetic::power::lemma_pow_adds(
                            p,
                            amount as nat,
                            (e - amount) as nat,
                        );
                        vstd::arithmetic::div_mod::lemma_fundamental_div_mod(w, pow(p, e));
                        vstd::arithmetic::div_mod::lemma_div_pos_is_pos(w, pow(p, e));
                        let t = w / pow(p, e);
                        vstd::arithmetic::power::lemma_pow_positive(p, amount as nat);
                        vstd::arithmetic::power::lemma_pow_positive(p, (e - amount) as nat);
                        assert(rp == pow(p, (e - amount) as nat) * t) by (nonlinear_arith)
                            requires
                                w == pow(p, amount as nat) * rp,
                                w == (pow(p, amount as nat) * pow(p, (e - amount) as nat)) * t,
                                1 <= pow(p, amount as nat),
                        ;
                        assert(pow(p, (e - amount) as nat) == p * pow(
                            p,
                            (e - amount - 1) as nat,
                        )) by {
                            reveal(vstd::arithmetic::power::pow);
                        }
                        assert(rp == p * (pow(p, (e - amount - 1) as nat) * t))
                            by (nonlinear_arith)
                            requires
                                rp == pow(p, (e - amount) as nat) * t,
                                pow(p, (e - amount) as nat) == p * pow(p, (e - amount - 1) as nat),
                        ;
                        assert(rp % p == 0) by {
                            vstd::arithmetic::div_mod::lemma_mod_multiples_basic(
                                pow(p, (e - amount - 1) as nat) * t,
                                p,
                            );
                            vstd::arithmetic::mul::lemma_mul_is_commutative(
                                p,
                                pow(p, (e - amount - 1) as nat) * t,
                            );
                        }
                    }
                }
                crate::theory::lemma_prime_pow_coprime_cancel(p, amount as nat, c, rp);
                assert(rp % c == 0);
                crate::theory::lemma_divisor_le(c, rp);
                vstd::arithmetic::power::lemma_pow_positive(p, amount as nat);
                assert(rp <= w) by (nonlinear_arith)
                    requires
                        w == pow(p, amount as nat) * rp,
                        1 <= pow(p, amount as nat),
                        1 <= rp,
                ;
                assert(1 <= c <= u64::MAX);
                assert(inner_combos@.contains(c as u64));
                let kc = choose|kc: int|
                    0 <= kc < inner_combos@.len() && inner_combos@[kc] == c as u64;
                let idx = e as int * cc + kc;
                assert(e as int * cc <= amount as int * cc) by (nonlinear_arith)
                    requires
                        e as int <= amount as int,
                        cc >= 1,
                        0 <= e as int,
                ;
                assert((amount as int + 1) * cc == amount as int * cc + cc) by (nonlinear_arith);
                assert(0 <= idx < combinations@.len());
                vstd::arithmetic::div_mod::lemma_fundamental_div_mod_converse(
                    idx,
                    cc,
                    e as int,
                    kc,
                );
                assert(idx / cc == e as int && idx % cc == kc);
                crate::theory::lemma_divisor_le(c, rp);
                assert(inner_combos@[kc] as int == c);
                assert(pow(p, (idx / cc) as nat) == pow(p, e));
                assert(combinations@[idx] as int == pow(p, e) * c);
                assert(combinations@[idx] == d as u64);
            }
        }
        combinations
    }
}

/// A prime that differs from every prime of a factorization does not divide
/// its product.
proof fn lemma_prime_not_dividing_product(p: int, s: Seq<(u64, u32)>)
    requires
        is_prime_spec(p),
        forall|k: int|
            0 <= k < s.len() ==> is_prime_spec(#[trigger] s[k].0 as int) && s[k].1 >= 1,
        forall|k: int| 0 <= k < s.len() ==> (#[trigger] s[k].0 as int) != p,
    ensures
        product_of(s) % p != 0,
    decreases s.len(),
{
    lemma_product_pairs_min(s);
    if s.len() == 0 {
        vstd::arithmetic::div_mod::lemma_small_mod(1, p as nat);
    } else {
        let q = s[0].0 as int;
        let m = s[0].1 as nat;
        assert forall|k: int|
            0 <= k < s.skip(1).len() implies is_prime_spec(#[trigger] s.skip(1)[k].0 as int)
            && s.skip(1)[k].1 >= 1 && (s.skip(1)[k].0 as int) != p by {
            assert(s.skip(1)[k] == s[k + 1]);
            assert(is_prime_spec(s[k + 1].0 as int) && s[k + 1].1 >= 1);
            assert((s[k + 1].0 as int) != p);
        }
        lemma_prime_not_dividing_product(p, s.skip(1));
        lemma_product_pairs_min(s.skip(1));
        vstd::arithmetic::power::lemma_pow_positive(q, m);
        if product_of(s) % p == 0 {
            crate::theory::lemma_euclid(p, pow(q, m), product_of(s.skip(1)));
            if pow(q, m) % p == 0 {
                crate::theory::lemma_prime_divides_pow(p, q, m);
                crate::theory::lemma_prime_divides_prime(p, q);
            }
        }
    }
}

impl PrimeData {
    /// Tries to factorize the given number into prime factors.
    ///
    /// The store's range must contain `[2, isqrt(x)]`; a missing-data error
    /// reporting the uncovered sub-range comes back otherwise.  The returned
    /// factorization multiplies back to `x` (the quirk input 0, which no
    /// prime divides down, comes back as the empty factorization of 1).
    pub fn try_factorize(&self, x: u64) -> (r: PrimeResult<Factorization>)
        requires
            self.wf(),
        ensures
            match r {
                Ok(f) => self.start() <= 2 && isqrt_spec(x as int) <= self.end() && f.wf()
                    && f.value() == if x == 0 {
                    1int
                } else {
                    x as int
                },
                Err(e) => !(self.start() <= 2 && isqrt_spec(x as int) <= self.end()) && (
                if self.start() > 2 {
                    e.says_missing(2, self.start() - 1)
                } else {
                    e.says_missing(self.end() + 1, isqrt_spec(x as int))
                }),
            },
    {
        let sqrt = crate::utils::arithmetic::IntSqrt::sqrt_floor(x);
        proof {
            crate::theory::lemma_isqrt_spec_bounds(x as int);
        }
        let (ds, de) = self.range();
        if ds > 2 {
            return Err(PrimeError::not_enough_data(ErrorAction::Reading, 2, ds - 1));
        }
        if sqrt > de {
            return Err(PrimeError::not_enough_data(ErrorAction::Reading, de + 1, sqrt));
        }
        let primes = self.primes_between(2, sqrt);
        let mut number = x;
        let mut factorization = Factorization::new();
        let mut i: usize = 0;
        while i < primes.len()
            invariant
                sqrt as int == isqrt_spec(x as int),
                crate::theory::lists_primes_between(primes@, 2, sqrt as int),
                i <= primes@.len(),
                factorization.wf(),
                factorization.value() * number == x as int,
                x >= 1 ==> number >= 1,
                x == 0 ==> number == 0 && factorization.value() == 1,
                factorization.pairs().len() == 0 || (exists|j: int|
                    0 <= j < i as int && factorization.pairs().last().0 == #[trigger] primes@[j]),
                forall|j: int|
                    0 <= j < i as int ==> number as int % (#[trigger] primes@[j] as int) != 0,
            decreases primes@.len() - i,
        {
            let prime = primes[i];
            proof {
                assert(2 <= primes@[i as int] <= sqrt && is_prime_spec(primes@[i as int] as int));
            }
            while number % prime == 0 && number > 0
                invariant
                    prime == primes@[i as int],
                    2 <= primes@[i as int] <= sqrt,
                    is_prime_spec(prime as int),
                    crate::theory::lists_primes_between(primes@, 2, sqrt as int),
                    (i as int) < primes@.len(),
                    factorization.wf(),
                    factorization.value() * number == x as int,
                    x >= 1 ==> number >= 1,
                    x == 0 ==> number == 0 && factorization.value() == 1,
                    factorization.pairs().len() == 0 || factorization.pairs().last().0 <= prime,
                    factorization.pairs().len() == 0 || (exists|j: int|
                        0 <= j <= i as int && factorization.pairs().last().0 == #[trigger] primes@[
                        j]),
                    forall|j: int|
                        0 <= j < i as int ==> number as int % (#[trigger] primes@[j] as int) != 0,
                decreases number,
            {
                proof {
                    crate::theory::lemma_divisor_le(prime as int, number as int);
                    lemma_product_pairs_min(factorization.pairs());
                    assert(factorization.value() * prime as int <= factorization.value()
                        * number as int) by (nonlinear_arith)
                        requires
                            prime as int <= number as int,
                            1 <= factorization.value(),
                    ;
                }
                let ghost oldnum = number as int;
                let ghost oldval = factorization.value();
                factorization.add_factor(prime);
                number = number / prime;
                proof {
                    assert(oldnum == prime as int * (number as int));
                    assert((oldval * prime as int) * (number as int) == oldval * (prime as int
                        * number as int)) by (nonlinear_arith);
                    vstd::arithmetic::div_mod::lemma_div_decreases(oldnum, prime as int);
                    assert forall|j: int|
                        0 <= j < i as int implies number as int % (#[trigger] primes@[j] as int)
                        != 0 by {
                        // a divisor of the quotient divides the number it came from
                        if number as int % (primes@[j] as int) == 0 {
                            vstd::arithmetic::div_mod::lemma_mod_multiples_basic(
                                prime as int,
                                number as int,
                            );
                            assert(oldnum % (number as int) == 0);
                            crate::theory::lemma_divides_trans(
                                primes@[j] as int,
                                number as int,
                                oldnum,
                            );
                        }
                    }
                }
            }
            i = i + 1;
        }
        if number > 1 {
            proof {
                // the leftover has no prime factor up to the square root of
                // x, so it is itself prime, and larger than every recorded
                // factor
                assert(x as int % (number as int) == 0) by {
                    vstd::arithmetic::div_mod::lemma_mod_multiples_basic(
                        factorization.value(),
                        number as int,
                    );
                }
                lemma_leftover_prime(number as int, x as int, sqrt as int, primes@);
                lemma_product_pairs_min(factorization.pairs());
                if factorization.pairs().len() > 0 {
                    let lastp = factorization.pairs().last().0;
                    assert(lastp <= sqrt);
                    assert(lastp <= number) by {
                        if number < lastp {
                        }
                    }
                }
            }
            let ghost oldval = factorization.value();
            factorization.add_factor(number);
            proof {
                assert(oldval * number as int == x as int);
            }
        }
        proof {
            if x >= 1 && number == 1 {
                assert(factorization.value() == x as int);
            }
        }
        Ok(factorization)
    }

    /// Factorizes the given number into prime factors.
    ///
    /// The store's range must contain `[2, isqrt(x)]`;
    /// [`PrimeData::try_factorize`] reports an error instead when it does
    /// not.
    pub fn factorize(&self, x: u64) -> (r: Factorization)
        requires
            self.wf(),
            self.start() <= 2,
            isqrt_spec(x as int) <= self.end(),
        ensures
            r.wf(),
            r.value() == if x == 0 {
                1int
            } else {
                x as int
            },
    {
        match self.try_factorize(x) {
            Ok(f) => f,
            Err(_) => vstd::pervasive::unreached(),
        }
    }
}

/// A leftover cofactor above 1 whose prime factors all exceed the square
/// root of the original number is prime, and exceeds that square root.
proof fn lemma_leftover_prime(number: int, x: int, sqrt: int, primes: Seq<u64>)
    requires
        2 <= number,
        1 <= x <= u64::MAX,
        x % number == 0,
        sqrt == isqrt_spec(x),
        crate::theory::lists_primes_between(primes, 2, sqrt),
        forall|j: int| 0 <= j < primes.len() ==> number % (#[trigger] primes[j] as int) != 0,
    ensures
        is_prime_spec(number),
        number > sqrt,
{
    crate::theory::lemma_isqrt_spec_bounds(x);
    assert(sqrt <= x) by (nonlinear_arith)
        requires
            sqrt * sqrt <= x,
            0 <= sqrt,
            1 <= x,
    ;
    assert forall|q: int| is_prime_spec(q) && 2 <= q <= sqrt implies number % q != 0 by {
        assert(0 <= q <= u64::MAX);
        assert(primes.contains(q as u64));
        let j = choose|j: int| 0 <= j < primes.len() && primes[j] == q as u64;
        assert(number % (primes[j] as int) != 0);
    }
    if !is_prime_spec(number) {
        crate::theory::lemma_composite_has_small_prime_factor(number);
        let q = choose|q: int|
            is_prime_spec(q) && #[trigger] (number % q) == 0 && q * q <= number;
        crate::theory::lemma_divisor_le(number, x);
        assert(q <= sqrt) by (nonlinear_arith)
            requires
                q * q <= number <= x,
                x < ((sqrt + 1) * (sqrt + 1)),
                0 <= sqrt,
                2 <= q,
        ;
    }
    crate::theory::lemma_exists_prime_factor(number);
    let q = choose|q: int| is_prime_spec(q) && #[trigger] (number % q) == 0 && q <= number;
    if number <= sqrt {
        assert(number % q != 0);
    }
}

/// Retrieves every factor of x
///
/// A factor is any number that divides x.  Therefore, it includes 1 and x
/// itself.  The returned vector lists exactly the divisors of x, strictly
/// ascending; it has length 1 exactly when x is 1, and length 2 exactly when
/// x is prime.
pub fn all_factors_of(x: u64) -> (r: Vec<u64>)
    requires
        x >= 1,
    ensures
        forall|j: int, j2: int| 0 <= j < j2 < r@.len() ==> #[trigger] r@[j] < #[trigger] r@[j2],
        forall|j: int| 0 <= j < r@.len() ==> 1 <= #[trigger] r@[j] && x as int % (r@[j] as int)
            == 0,
        forall|d: int| 1 <= d && #[trigger] (x as int % d) == 0 ==> r@.contains(d as u64),
        r@.len() >= 1,
        r@[0] == 1,
        r@[r@.len() - 1] == x,
        (r@.len() == 1 <==> x == 1),
        (r@.len() == 2 <==> is_prime_spec(x as int)),
{
    let factorization = factorization_of(x);
    let r = factorization.all_factors();
    proof {
        lemma_combo_count_shape(factorization.pairs());
    }
    r
}

/// Builds the factorization of `x` by generating the primes up to its
/// square root first.
fn factorization_of(x: u64) -> (r: Factorization)
    ensures
        r.wf(),
        r.value() == if x == 0 {
            1int
        } else {
            x as int
        },
{
    let sqrt = crate::utils::arithmetic::IntSqrt::sqrt_floor(x);
    let prime_data = PrimeData::generate(core::ops::RangeInclusive::new(0, sqrt));
    prime_data.factorize(x)
}

impl From<u64> for Factorization {
    /// Factorizes a number (internally generating the prime data its trial
    /// division needs).
    fn from(number: u64) -> (r: Factorization) {
        factorization_of(number)
    }
}

impl vstd::std_specs::convert::FromSpecImpl<u64> for Factorization {
    open spec fn obeys_from_spec() -> bool {
        false
    }

    open spec fn from_spec(number: u64) -> Factorization {
        choose|f: Factorization| f.wf()
    }
}

/// How a factorization's divisor count reads off the represented number: one
/// divisor combination exactly for 1, and two exactly for a prime.
pub proof fn lemma_combo_count_shape(s: Seq<(u64, u32)>)
    requires
        forall|i: int, j: int| 0 <= i < j < s.len() ==> s[i].0 < s[j].0,
        forall|i: int|
            0 <= i < s.len() ==> is_prime_spec(#[trigger] s[i].0 as int) && s[i].1 >= 1,
    ensures
        combo_count(s) >= 1,
        combo_count(s) == 1 <==> product_of(s) == 1,
        combo_count(s) == 2 <==> is_prime_spec(product_of(s)),
{
    crate::theory::lemma_small_primes();
    lemma_product_pairs_min(s);
    if s.len() == 0 {
        assert(combo_count(s) == 1);
        assert(product_of(s) == 1);
    } else {
        let p = s[0].0 as int;
        let m = s[0].1 as nat;
        let rest = s.skip(1);
        assert(forall|i: int|
            0 <= i < rest.len() ==> is_prime_spec(#[trigger] rest[i].0 as int) && rest[i].1 >= 1);
        lemma_product_pairs_min(rest);
        lemma_combo_count_rest(rest);
        assert(combo_count(s) == (m + 1) * combo_count(rest));
        assert(combo_count(s) >= 2) by (nonlinear_arith)
            requires
                combo_count(s) == (m + 1) * combo_count(rest),
                m >= 1,
                combo_count(rest) >= 1,
        ;
        assert(product_of(s) >= 2);
        // one pair with multiplicity one and nothing else is exactly a prime
        if s.len() == 1 && m == 1 {
            vstd::arithmetic::power::lemma_pow1(p);
            assert(rest =~= Seq::<(u64, u32)>::empty());
            assert(product_of(s) == p * 1);
            assert(combo_count(s) == 2);
        } else {
            // otherwise the number has a proper divisor: its first prime
            assert(combo_count(s) != 2) by {
                if s.len() == 1 {
                    assert(rest =~= Seq::<(u64, u32)>::empty());
                    assert(combo_count(rest) == 1);
                    assert(combo_count(s) == (s[0].1 + 1) * combo_count(rest));
                    assert(combo_count(s) == m + 1) by (nonlinear_arith)
                        requires
                            combo_count(s) == (s[0].1 + 1) * combo_count(rest),
                            combo_count(rest) == 1,
                            m == s[0].1 as nat,
                    ;
                } else {
                    assert(rest.len() >= 1);
                    assert(rest[0] == s[1]);
                    assert(combo_count(rest) >= 2) by {
                        assert(is_prime_spec(rest[0].0 as int) && rest[0].1 >= 1);
                        lemma_combo_count_rest2(rest);
                    }
                    assert(combo_count(s) >= 4) by (nonlinear_arith)
                        requires
                            combo_count(s) == (m + 1) * combo_count(rest),
                            m >= 1,
                            combo_count(rest) >= 2,
                    ;
                }
            }
            assert(!is_prime_spec(product_of(s))) by {
                lemma_product_proper_divisor(s);
            }
        }
    }
}

/// The divisor count of well-formed pairs is at least 1.
proof fn lemma_combo_count_rest(s: Seq<(u64, u32)>)
    ensures
        combo_count(s) >= 1,
    decreases s.len(),
{
    if s.len() > 0 {
        lemma_combo_count_rest(s.skip(1));
        assert(combo_count(s) == (s[0].1 + 1) * combo_count(s.skip(1)));
        assert((s[0].1 + 1) * combo_count(s.skip(1)) >= 1) by (nonlinear_arith)
            requires
                combo_count(s.skip(1)) >= 1,
                s[0].1 >= 0,
        ;
    }
}

/// The divisor count of nonempty well-formed pairs is at least 2.
proof fn lemma_combo_count_rest2(s: Seq<(u64, u32)>)
    requires
        s.len() >= 1,
        forall|i: int|
            0 <= i < s.len() ==> is_prime_spec(#[trigger] s[i].0 as int) && s[i].1 >= 1,
    ensures
        combo_count(s) >= 2,
{
    lemma_combo_count_rest(s.skip(1));
    assert(is_prime_spec(s[0].0 as int) && s[0].1 >= 1);
    assert(combo_count(s) == (s[0].1 + 1) * combo_count(s.skip(1)));
    assert((s[0].1 + 1) * combo_count(s.skip(1)) >= 2) by (nonlinear_arith)
        requires
            combo_count(s.skip(1)) >= 1,
            s[0].1 >= 1,
    ;
}

/// A product of prime powers that is not a single first power has a proper
/// divisor: its first prime.
proof fn lemma_product_proper_divisor(s: Seq<(u64, u32)>)
    requires
        s.len() >= 1,
        !(s.len() == 1 && s[0].1 == 1),
        forall|i: int, j: int| 0 <= i < j < s.len() ==> s[i].0 < s[j].0,
        forall|i: int|
            0 <= i < s.len() ==> is_prime_spec(#[trigger] s[i].0 as int) && s[i].1 >= 1,
    ensures
        !is_prime_spec(product_of(s)),
{
    let p = s[0].0 as int;
    let m = s[0].1 as nat;
    let rest = s.skip(1);
    assert forall|i: int|
        0 <= i < rest.len() implies is_prime_spec(#[trigger] rest[i].0 as int) && rest[i].1
        >= 1 by {
        assert(rest[i] == s[i + 1]);
        assert(is_prime_spec(s[i + 1].0 as int) && s[i + 1].1 >= 1);
    }
    lemma_product_pairs_min(rest);
    vstd::arithmetic::power::lemma_pow_positive(p, m);
    let v = product_of(s);
    assert(v == pow(p, m) * product_of(rest));
    // p divides v, and the cofactor pow(p, m-1) * rest is at least 2
    vstd::arithmetic::power::lemma_pow_sub_add_cancel(p, m, 1);
    vstd::arithmetic::power::lemma_pow1(p);
    vstd::arithmetic::power::lemma_pow_positive(p, (m - 1) as nat);
    let cof = pow(p, (m - 1) as nat) * product_of(rest);
    assert(v == p * cof) by (nonlinear_arith)
        requires
            v == pow(p, m) * product_of(rest),
            pow(p, m) == pow(p, (m - 1) as nat) * p,
            cof == pow(p, (m - 1) as nat) * product_of(rest),
    ;
    assert(cof >= 2) by {
        if s.len() == 1 {
            assert(m >= 2);
            vstd::arithmetic::power::lemma_pow_increases(p as nat, 1, (m - 1) as nat);
            assert(pow(p, (m - 1) as nat) >= p);
            assert(cof >= 2) by (nonlinear_arith)
                requires
                    pow(p, (m - 1) as nat) >= 2,
                    product_of(rest) >= 1,
                    cof == pow(p, (m - 1) as nat) * product_of(rest),
            ;
        } else {
            assert(rest.len() >= 1);
            assert(cof >= 2) by (nonlinear_arith)
                requires
                    pow(p, (m - 1) as nat) >= 1,
                    product_of(rest) >= 2,
                    cof == pow(p, (m - 1) as nat) * product_of(rest),
            ;
        }
    }
    assert(v % p == 0) by {
        vstd::arithmetic::div_mod::lemma_mod_multiples_basic(cof, p);
        assert(p * cof == cof * p) by (nonlinear_arith);
    }
    assert(p < v) by (nonlinear_arith)
        requires
            v == p * cof,
            cof >= 2,
            p >= 2,
    ;
    crate::theory::lemma_has_divisor_iff(v, 2, v - 1);
}

/// `base ^ exp`, for results that stay representable.
fn pow_u64(base: u64, exp: u32) -> (r: u64)
    requires
        1 <= base,
        pow(base as int, exp as nat) <= u64::MAX,
    ensures
        r as int == pow(base as int, exp as nat),
{
    let mut acc: u64 = 1;
    let mut j: u32 = 0;
    proof {
        vstd::arithmetic::power::lemma_pow0(base as int);
    }
    while j < exp
        invariant
            1 <= base,
            j <= exp,
            acc as int == pow(base as int, j as nat),
            pow(base as int, exp as nat) <= u64::MAX,
        decreases exp - j,
    {
        proof {
            vstd::arithmetic::power::lemma_pow_adds(base as int, j as nat, 1);
            vstd::arithmetic::power::lemma_pow1(base as int);
            vstd::arithmetic::power::lemma_pow_increases(base as nat, (j + 1) as nat, exp as nat);
        }
        acc = acc * base;
        j = j + 1;
    }
    acc
}

/// Sorts a vector of integers in nondecreasing order (insertion sort),
/// keeping exactly the same elements.
fn sort_u64(v: &mut Vec<u64>)
    ensures
        final(v)@.len() == old(v)@.len(),
        forall|i: int, j: int|
            0 <= i < j < final(v)@.len() ==> #[trigger] final(v)@[i] <= #[trigger] final(v)@[j],
        final(v)@.to_multiset() == old(v)@.to_multiset(),
{
    let ghost orig = v@;
    let mut i: usize = 1;
    while i < v.len()
        invariant
            1 <= i || v@.len() == 0,
            i <= v@.len() || v@.len() == 0,
            v@.len() == orig.len(),
            v@.to_multiset() == orig.to_multiset(),
            forall|a: int, b: int| 0 <= a < b < i as int ==> #[trigger] v@[a] <= #[trigger] v@[b],
        decreases v@.len() - i,
    {
        let mut j: usize = i;
        while j > 0 && v[j - 1] > v[j]
            invariant
                j <= i < v@.len(),
                v@.len() == orig.len(),
                v@.to_multiset() == orig.to_multiset(),
                forall|a: int, b: int|
                    0 <= a < b <= i as int && b != j as int ==> #[trigger] v@[a] <= #[trigger] v@[b],
                forall|a: int, b: int|
                    j as int <= a < b <= i as int ==> #[trigger] v@[a] <= #[trigger] v@[b],
            decreases j,
        {
            let ghost before = v@;
            let x = v[j - 1];
            let y = v[j];
            v[j - 1] = y;
            v[j] = x;
            proof {
                broadcast use vstd::multiset::group_multiset_axioms;

                let mid = before.update(j as int - 1, y);
                assert(v@ =~= mid.update(j as int, x));
                vstd::seq_lib::to_multiset_update(before, j as int - 1, y);
                vstd::seq_lib::to_multiset_update(mid, j as int, x);
                assert(mid[j as int] == y);
                vstd::seq_lib::to_multiset_contains(before, x);
                assert(before.to_multiset().count(x) >= 1) by {
                    assert(before.contains(x));
                }
                assert(v@.to_multiset() =~= before.to_multiset());
            }
            j = j - 1;
        }
        i = i + 1;
    }
}

/// A sequence of prime pairs with positive multiplicities multiplies to at
/// least 1, and to at least 2 when it is not empty.
proof fn lemma_product_pairs_min(s: Seq<(u64, u32)>)
    requires
        forall|i: int|
            0 <= i < s.len() ==> is_prime_spec(#[trigger] s[i].0 as int) && s[i].1 >= 1,
    ensures
        1 <= product_of(s),
        s.len() >= 1 ==> 2 <= product_of(s),
    decreases s.len(),
{
    if s.len() > 0 {
        assert(forall|i: int|
            0 <= i < s.skip(1).len() ==> is_prime_spec(#[trigger] s.skip(1)[i].0 as int) && s.skip(
                1,
            )[i].1 >= 1);
        lemma_product_pairs_min(s.skip(1));
        let p = s[0].0 as int;
        let m = s[0].1 as nat;
        assert(2 <= p);
        vstd::arithmetic::power::lemma_pow_increases(p as nat, 1, m);
        vstd::arithmetic::power::lemma_pow1(p);
        assert(2 <= pow(p, m));
        assert(2 * 1 <= pow(p, m) * product_of(s.skip(1))) by (nonlinear_arith)
            requires
                2 <= pow(p, m),
                1 <= product_of(s.skip(1)),
        ;
    }
}

/// Appending a pair multiplies the product by its prime power.
proof fn lemma_product_push(s: Seq<(u64, u32)>, e: (u64, u32))
    ensures
        product_of(s.push(e)) == product_of(s) * pow(e.0 as int, e.1 as nat),
    decreases s.len(),
{
    if s.len() == 0 {
        assert(s.push(e).skip(1) =~= Seq::<(u64, u32)>::empty());
        assert(s.push(e)[0] == e);
        assert(product_of(Seq::<(u64, u32)>::empty()) == 1);
        assert(product_of(s) == 1);
        assert(s.push(e).len() == 1);
        assert(product_of(s.push(e)) == pow(e.0 as int, e.1 as nat) * 1);
    } else {
        assert(s.push(e).skip(1) =~= s.skip(1).push(e));
        assert(s.push(e)[0] == s[0]);
        lemma_product_push(s.skip(1), e);
        let h = pow(s[0].0 as int, s[0].1 as nat);
        assert(h * (product_of(s.skip(1)) * pow(e.0 as int, e.1 as nat)) == (h * product_of(
            s.skip(1),
        )) * pow(e.0 as int, e.1 as nat)) by (nonlinear_arith);
    }
}

/// The product splits at any index into the product of the prefix and the
/// product of the rest.
proof fn lemma_product_split(s: Seq<(u64, u32)>, i: int)
    requires
        0 <= i <= s.len(),
    ensures
        product_of(s) == product_of(s.take(i)) * product_of(s.skip(i)),
    decreases i,
{
    if i == 0 {
        assert(s.take(0) =~= Seq::<(u64, u32)>::empty());
        assert(s.skip(0) =~= s);
    } else {
        lemma_product_split(s, i - 1);
        lemma_take_step(s, i - 1);
        let a = product_of(s.take(i - 1));
        let h = pow(s[i - 1].0 as int, s[i - 1].1 as nat);
        assert(s.skip(i - 1)[0] == s[i - 1]);
        assert(s.skip(i - 1).skip(1) =~= s.skip(i));
        assert(product_of(s.skip(i - 1)) == h * product_of(s.skip(i)));
        assert(a * (h * product_of(s.skip(i))) == (a * h) * product_of(s.skip(i)))
            by (nonlinear_arith);
    }
}

/// Taking one more element multiplies the prefix product by its prime power.
proof fn lemma_take_step(s: Seq<(u64, u32)>, i: int)
    requires
        0 <= i < s.len(),
    ensures
        product_of(s.take(i + 1)) == product_of(s.take(i)) * pow(s[i].0 as int, s[i].1 as nat),
{
    assert(s.take(i + 1) =~= s.take(i).push(s[i]));
    lemma_product_push(s.take(i), s[i]);
}

/// Every single recorded prime power is at most the whole product.
proof fn lemma_pow_le_product(s: Seq<(u64, u32)>, i: int)
    requires
        forall|k: int|
            0 <= k < s.len() ==> is_prime_spec(#[trigger] s[k].0 as int) && s[k].1 >= 1,
        0 <= i < s.len(),
    ensures
        pow(s[i].0 as int, s[i].1 as nat) <= product_of(s),
{
    lemma_product_split(s, i);
    lemma_take_step(s, i);
    lemma_product_split(s, i + 1);
    assert forall|k: int|
        0 <= k < s.take(i).len() implies is_prime_spec(#[trigger] s.take(i)[k].0 as int) && s.take(
        i,
    )[k].1 >= 1 by {
        assert(s.take(i)[k] == s[k]);
    }
    assert forall|k: int|
        0 <= k < s.skip(i + 1).len() implies is_prime_spec(#[trigger] s.skip(i + 1)[k].0 as int)
        && s.skip(i + 1)[k].1 >= 1 by {
        assert(s.skip(i + 1)[k] == s[k + i + 1]);
        assert(is_prime_spec(s[k + i + 1].0 as int) && s[k + i + 1].1 >= 1);
    }
    lemma_product_pairs_min(s.take(i));
    lemma_product_pairs_min(s.skip(i + 1));
    vstd::arithmetic::power::lemma_pow_positive(s[i].0 as int, s[i].1 as nat);
    assert(pow(s[i].0 as int, s[i].1 as nat) <= (product_of(s.take(i)) * pow(
        s[i].0 as int,
        s[i].1 as nat,
    )) * product_of(s.skip(i + 1))) by (nonlinear_arith)
        requires
            1 <= product_of(s.take(i)),
            1 <= product_of(s.skip(i + 1)),
            1 <= pow(s[i].0 as int, s[i].1 as nat),
    ;
}

/// A representable power of a prime has a small exponent.
proof fn lemma_pow_exp_bound(p: int, m: nat)
    requires
        2 <= p,
        pow(p, m) <= u64::MAX,
    ensures
        m < 64,
{
    if m >= 64 {
        lemma_pow_base_monotone(2, p, 64);
        vstd::arithmetic::power::lemma_pow_increases(p as nat, 64, m);
        vstd::arithmetic::power2::lemma2_to64_rest();
        vstd::arithmetic::power2::lemma_pow2(64);
    }
}

/// Raising a larger base to the same power gives a larger result.
proof fn lemma_pow_base_monotone(b1: int, b2: int, e: nat)
    requires
        1 <= b1 <= b2,
    ensures
        pow(b1, e) <= pow(b2, e),
    decreases e,
{
    if e > 0 {
        let e1 = (e - 1) as nat;
        lemma_pow_base_monotone(b1, b2, e1);
        vstd::arithmetic::power::lemma_pow_positive(b1, e1);
        vstd::arithmetic::power::lemma_pow_positive(b2, e1);
        let p1 = pow(b1, e1);
        let p2 = pow(b2, e1);
        assert(pow(b1, e) == b1 * p1) by {
            reveal(vstd::arithmetic::power::pow);
        }
        assert(pow(b2, e) == b2 * p2) by {
            reveal(vstd::arithmetic::power::pow);
        }
        assert(b1 * p1 <= b2 * p2) by (nonlinear_arith)
            requires
                1 <= b1 <= b2,
                1 <= p1,
                p1 <= p2,
        ;
    } else {
        vstd::arithmetic::power::lemma_pow0(b1);
        vstd::arithmetic::power::lemma_pow0(b2);
    }
}

/// A partial prime power still fits under the whole product.
proof fn lemma_pow_factor_fits(p: int, pw: nat, amount: nat, rest: int)
    requires
        2 <= p,
        pw <= amount,
        1 <= rest,
        pow(p, amount) * rest <= u64::MAX,
    ensures
        pow(p, pw) <= pow(p, amount) * rest <= u64::MAX,
{
    vstd::arithmetic::power::lemma_pow_increases(p as nat, pw, amount);
    vstd::arithmetic::power::lemma_pow_positive(p, amount);
    assert(pow(p, amount) <= pow(p, amount) * rest) by (nonlinear_arith)
        requires
            1 <= rest,
            1 <= pow(p, amount),
    ;
}

/// A product of a partial prime power and a divisor of the rest divides the
/// whole: the witnessing cofactor is the leftover power times the leftover
/// of the rest.
proof fn lemma_combo_product_divides(p: int, pw: nat, amount: nat, x: int, rest: int, whole: int)
    requires
        2 <= p,
        pw <= amount,
        1 <= x,
        1 <= rest,
        rest % x == 0,
        whole == pow(p, amount) * rest,
    ensures
        whole % (pow(p, pw) * x) == 0,
        1 <= pow(p, pw) * x,
        pow(p, pw) * x <= whole,
{
    vstd::arithmetic::power::lemma_pow_positive(p, pw);
    vstd::arithmetic::power::lemma_pow_positive(p, amount);
    vstd::arithmetic::power::lemma_pow_positive(p, (amount - pw) as nat);
    vstd::arithmetic::power::lemma_pow_sub_add_cancel(p, amount, pw);
    vstd::arithmetic::div_mod::lemma_fundamental_div_mod(rest, x);
    let q = rest / x;
    let e = pow(p, (amount - pw) as nat);
    assert(1 <= q) by {
        crate::theory::lemma_divisor_le(x, rest);
    }
    assert(1 <= pow(p, pw) * x) by (nonlinear_arith)
        requires
            1 <= pow(p, pw),
            1 <= x,
    ;
    assert(whole == (pow(p, pw) * x) * (e * q)) by (nonlinear_arith)
        requires
            whole == pow(p, amount) * rest,
            pow(p, amount) == pow(p, (amount - pw) as nat) * pow(p, pw),
            rest == x * q,
            e == pow(p, (amount - pw) as nat),
    ;
    vstd::arithmetic::div_mod::lemma_mod_multiples_basic(e * q, pow(p, pw) * x);
    assert((pow(p, pw) * x) * (e * q) == (e * q) * (pow(p, pw) * x)) by (nonlinear_arith);
    assert(1 <= pow(p, pw) * x && (pow(p, pw) * x <= (pow(p, pw) * x) * (e * q)))
        by (nonlinear_arith)
        requires
            1 <= pow(p, pw),
            1 <= x,
            1 <= e,
            1 <= q,
    ;
}

} // verus!
