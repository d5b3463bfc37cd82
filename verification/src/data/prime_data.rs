//! The prime store: an ordered sequence of compressed prime blocks plus the
//! inclusive integer range the blocks are valid for.

use vstd::prelude::*;

verus! {

use crate::data::prime_byte::PrimeByte;
use crate::data::error::{PrimeResult, PrimeError, ErrorAction};
use crate::theory::{
    is_prime_spec, coprime30, is_k_value, lemma_small_primes, lemma_nonwheel_not_prime,
    lemma_mod30_window, isqrt_spec,
};

/// `x` is a product of one of the first `n` witness primes of `ps` and a
/// coprime-30 multiplier of at least 7, and lands in the target `[lo, hi]`.
spec fn struck_by_first(x: int, ps: Seq<u64>, n: int, lo: int, hi: int) -> bool {
    exists|i: int, m: int|
        0 <= i < n && i < ps.len() && coprime30(m) && 7 <= m && x == #[trigger] (ps[i] as int * m)
            && lo <= x <= hi
}

/// `x` is a product of the witness prime `p` and a coprime-30 multiplier in
/// `[7, mbound)`, and lands in the target `[lo, hi]`.
spec fn struck_by_prime_below(x: int, p: int, lo: int, hi: int, mbound: int) -> bool {
    exists|m: int| coprime30(m) && 7 <= m && m < mbound && x == #[trigger] (p * m) && lo <= x <= hi
}

/// An abstraction over storing prime numbers
///
/// Stores whether a number is prime or not, as a bit being one or zero.  Each
/// bit corresponds to some number that is coprime with 30; in every integer
/// range `[30k, 30(k+1))` there are 8 of those numbers.
///
/// The store is valid exactly for the inclusive range `[range_start,
/// range_end]`; a start above the end denotes a canonically empty store.
/// Every well-formed store's bits agree with true primality over its range:
/// see [`PrimeData::wf`].
pub struct PrimeData {
    pub(crate) data: Vec<PrimeByte>,
    pub(crate) range_start: u64,
    pub(crate) range_end: u64,
}

impl PrimeData {
    /// The inclusive lower end of the range the store is valid for.
    pub closed spec fn start(self) -> int {
        self.range_start as int
    }

    /// The inclusive upper end of the range the store is valid for.
    pub closed spec fn end(self) -> int {
        self.range_end as int
    }

    /// The blocks, one per window of thirty integers.
    pub closed spec fn blocks(self) -> Seq<PrimeByte> {
        self.data@
    }

    /// The store is canonically empty.
    pub open spec fn is_empty_spec(self) -> bool {
        self.start() > self.end()
    }

    /// `x` lies in the store's valid range.
    pub open spec fn in_range(self, x: int) -> bool {
        self.start() <= x <= self.end()
    }

    /// The index of the first stored block: the range start rounded down to
    /// a multiple of thirty, divided by thirty.
    pub open spec fn data_start(self) -> int {
        self.start() / 30
    }

    /// One past the index of the last stored block: the range end rounded up
    /// to a multiple of thirty, divided by thirty.
    pub open spec fn data_end(self) -> int {
        self.end() / 30 + if self.end() % 30 == 0 {
            0int
        } else {
            1int
        }
    }

    /// The store holds exactly the blocks its range calls for.
    pub open spec fn structural(self) -> bool {
        self.blocks().len() == if self.data_end() - self.data_start() > 0 {
            self.data_end() - self.data_start()
        } else {
            0int
        }
    }

    /// The bit for `x` is set: `x` is coprime with 30, its block is stored,
    /// and the block marks its residue prime.
    pub open spec fn marked(self, x: int) -> bool {
        &&& coprime30(x)
        &&& 0 <= x / 30 - self.data_start() < self.blocks().len()
        &&& self.blocks()[x / 30 - self.data_start()].marked(x % 30)
    }

    /// Every bit inside the valid range tells the truth: a coprime-30 value
    /// in range is marked exactly when it is prime.
    pub open spec fn bits_truthful(self) -> bool {
        forall|x: int|
            self.in_range(x) && coprime30(x) ==> (#[trigger] self.marked(x) <==> is_prime_spec(x))
    }

    /// Well-formed: the block count matches the range, and the bits agree
    /// with true primality over the whole range.
    pub open spec fn wf(self) -> bool {
        self.structural() && self.bits_truthful()
    }

    /// Every coprime-30 value in range (indeed, every value in range not a
    /// multiple of thirty) has its block stored.
    proof fn lemma_block_index(self, x: int)
        requires
            self.structural(),
            self.in_range(x),
            x % 30 != 0,
        ensures
            0 <= x / 30 - self.data_start() < self.blocks().len(),
    {
        vstd::arithmetic::div_mod::lemma_div_is_ordered(self.start(), x, 30);
        vstd::arithmetic::div_mod::lemma_div_is_ordered(x, self.end(), 30);
        vstd::arithmetic::div_mod::lemma_fundamental_div_mod(x, 30);
        vstd::arithmetic::div_mod::lemma_fundamental_div_mod(self.end(), 30);
        vstd::arithmetic::div_mod::lemma_mod_pos_bound(x, 30);
        vstd::arithmetic::div_mod::lemma_mod_pos_bound(self.end(), 30);
        if self.end() % 30 == 0 && x / 30 == self.end() / 30 {
            assert(x == 30 * (x / 30) + x % 30);
            assert(x > self.end());
        }
    }

    /// Creates a new piece of "starter data", which are all the primes below 30
    pub fn new() -> (r: Self)
        ensures
            r.wf(),
            r.start() == 0,
            r.end() == 30,
    {
        let mut block = PrimeByte::new();
        let _changed = block.set_nonprime(1);
        let mut data: Vec<PrimeByte> = Vec::new();
        data.push(block);
        let r = Self { data, range_start: 0, range_end: 30 };
        proof {
            lemma_small_primes();
            assert(r.blocks()[0] == block);
            assert forall|x: int| r.in_range(x) && coprime30(x) implies (#[trigger] r.marked(x)
                <==> is_prime_spec(x)) by {
                vstd::arithmetic::div_mod::lemma_mod_pos_bound(x, 30);
                if x < 30 {
                    vstd::arithmetic::div_mod::lemma_small_mod(x as nat, 30);
                    vstd::arithmetic::div_mod::lemma_basic_div(x, 30);
                    assert(x % 30 == x && x / 30 == 0);
                    assert(is_k_value(x));
                    assert(r.marked(x) <==> block.marked(x));
                } else {
                    assert(x == 30);
                    assert(x % 30 == 0) by {
                        vstd::arithmetic::div_mod::lemma_mod_self_0(30);
                    }
                }
            }
        }
        r
    }

    /// Destructures the PrimeData range into (start, end)
    ///
    /// **Note**: The range is inclusive.
    pub fn range(&self) -> (r: (u64, u64))
        ensures
            r.0 as int == self.start(),
            r.1 as int == self.end(),
    {
        (self.range_start, self.range_end)
    }

    /// Retrieves the PrimeData offset: the store's raw data starts at the
    /// block of `range_start / 30`.
    pub fn offset(&self) -> (r: usize)
        requires
            self.start() / 30 <= usize::MAX,
        ensures
            r as int == self.data_start(),
    {
        (self.range_start / 30) as usize
    }

    /// Verifies if the data is empty.
    ///
    /// Returns `true` if and only if the range start is greater than the
    /// range end.
    pub fn is_empty(&self) -> (r: bool)
        ensures
            r == self.is_empty_spec(),
    {
        self.range_start > self.range_end
    }

    // Creates "empty" data, with all bits set to one (except the bit of 1,
    // which no block may ever mark prime).
    // Should only be called by expansion functions.
    fn create_empty(range_start: u64, range_end: u64) -> (r: Self)
        ensures
            r.start() == range_start as int,
            r.end() == range_end as int,
            r.structural(),
            forall|x: int| #[trigger] r.marked(x) <==> coprime30(x) && 0 <= x / 30 - r.data_start()
                < r.blocks().len() && x != 1,
    {
        let data_start = range_start / 30;
        let data_end = crate::utils::arithmetic::Divisible::div_ceil(range_end, 30);
        if data_start >= data_end {
            let r = Self { data: Vec::new(), range_start, range_end };
            return r;
        }
        let data_length = data_end - data_start;
        let mut data: Vec<PrimeByte> = Vec::new();
        let mut i: u64 = 0;
        while i < data_length
            invariant
                i <= data_length,
                data@.len() == i as int,
                forall|j: int, k: int|
                    0 <= j < i as int ==> (#[trigger] data@[j].marked(k)) == is_k_value(k),
            decreases data_length - i,
        {
            data.push(PrimeByte::new());
            i = i + 1;
        }
        if data_start == 0 {
            let mut first = data[0];
            let _changed = first.set_nonprime(1);
            data[0] = first;
        }
        let r = Self { data, range_start, range_end };
        proof {
            assert forall|x: int| #[trigger] r.marked(x) <==> coprime30(x) && 0 <= x / 30
                - r.data_start() < r.blocks().len() && x != 1 by {
                if coprime30(x) && 0 <= x / 30 - r.data_start() < r.blocks().len() {
                    let j = x / 30 - r.data_start();
                    if x == 1 {
                        vstd::arithmetic::div_mod::lemma_small_mod(1, 30);
                        vstd::arithmetic::div_mod::lemma_basic_div(1, 30);
                        assert(x / 30 == 0 && x % 30 == 1);
                    } else if x % 30 == 1 && data_start == 0 && j == 0 {
                        // only the true value 1 has residue 1 in block zero
                        vstd::arithmetic::div_mod::lemma_fundamental_div_mod(x, 30);
                        assert(x == 30 * (x / 30) + 1);
                        assert(x != 1 ==> x / 30 != 0);
                    }
                }
            }
        }
        r
    }

    // Clears the bit of a coprime-30 value inside the range; other requests
    // are rejected with the error the value earns.
    fn set_nonprime(&mut self, nonprime: u64) -> (r: PrimeResult<bool>)
        requires
            old(self).structural(),
        ensures
            final(self).start() == old(self).start(),
            final(self).end() == old(self).end(),
            final(self).structural(),
            match r {
                Ok(changed) => old(self).in_range(nonprime as int) && coprime30(nonprime as int)
                    && changed == old(self).marked(nonprime as int) && forall|y: int|
                    (#[trigger] final(self).marked(y)) == (old(self).marked(y) && y
                        != nonprime as int),
                Err(_) => !(old(self).in_range(nonprime as int) && coprime30(nonprime as int))
                    && final(self).blocks() == old(self).blocks(),
            },
    {
        if self.range_start <= nonprime && nonprime <= self.range_end {
            if nonprime % 30 == 0 {
                proof {
                    vstd::arithmetic::div_mod::lemma_mod_pos_bound(nonprime as int, 30);
                }
                return Err(PrimeError::out_of_bounds(ErrorAction::Modifying, nonprime));
            }
            proof {
                self.lemma_block_index(nonprime as int);
            }
            let k_value = (nonprime % 30) as u8;
            let len = self.data.len();
            let data_index_u64 = nonprime / 30 - self.range_start / 30;
            proof {
                assert(data_index_u64 as int == nonprime as int / 30 - self.data_start());
                assert((data_index_u64 as int) < len as int);
            }
            let data_index = data_index_u64 as usize;
            proof {
                assert(data_index as int == nonprime as int / 30 - self.data_start());
            }
            let ghost oldblocks = self.data@;
            let result = self.data[data_index].set_nonprime(k_value);
            match result {
                Ok(boolean) => {
                    proof {
                        let n = nonprime as int;
                        vstd::arithmetic::div_mod::lemma_fundamental_div_mod(n, 30);
                        assert forall|y: int|
                            (#[trigger] self.marked(y)) == (old(self).marked(y) && y != n) by {
                            if 0 <= y / 30 - self.data_start() < self.blocks().len() {
                                let jy = y / 30 - self.data_start();
                                if jy == data_index as int {
                                    vstd::arithmetic::div_mod::lemma_fundamental_div_mod(y, 30);
                                    assert(y == 30 * (y / 30) + y % 30);
                                    assert(y % 30 == n % 30 ==> y == n);
                                } else {
                                    assert(self.blocks()[jy] == oldblocks[jy]);
                                }
                            }
                        }
                    }
                    Ok(boolean)
                },
                Err(()) => {
                    proof {
                        // the block was left unchanged, so the sequence is too
                        assert(self.data@ =~= oldblocks);
                    }
                    Err(PrimeError::out_of_bounds(ErrorAction::Modifying, nonprime))
                },
            }
        } else {
            Err(PrimeError::out_of_bounds(ErrorAction::Modifying, nonprime))
        }
    }

    /// Tries to create an iterator over the given range
    ///
    /// Returns a missing-data error if the given range falls out of the
    /// store's range.
    pub fn try_iter(&self, range: core::ops::RangeInclusive<u64>) -> (r: PrimeResult<
        crate::data::prime_iter::PrimeIter,
    >)
        requires
            self.wf(),
        ensures
            match r {
                Ok(it) => self.start() <= range@.start as int && range@.end as int <= self.end()
                    && it.wf() && crate::theory::lists_primes_between(
                    it.remaining(),
                    range@.start as int,
                    range@.end as int,
                ),
                Err(e) => !(self.start() <= range@.start as int && range@.end as int
                    <= self.end()) && (if self.start() > range@.start as int {
                    e.says_missing(range@.start as int, self.start() - 1)
                } else {
                    e.says_missing(self.end() + 1, range@.end as int)
                }),
            },
    {
        crate::data::prime_iter::PrimeIter::new(self, range)
    }

    /// Creates an iterator over the given range
    ///
    /// Will iterate over all primes in the given range, which must lie in
    /// the store's range; [`Self::try_iter`] reports an error instead.
    pub fn iter(&self, range: core::ops::RangeInclusive<u64>) -> (r:
        crate::data::prime_iter::PrimeIter)
        requires
            self.wf(),
            self.start() <= range@.start as int,
            range@.end as int <= self.end(),
        ensures
            r.wf(),
            crate::theory::lists_primes_between(
                r.remaining(),
                range@.start as int,
                range@.end as int,
            ),
    {
        match self.try_iter(range) {
            Ok(it) => it,
            Err(_) => vstd::pervasive::unreached(),
        }
    }

    /// Iterates over all prime numbers in the given data.
    pub fn iter_all(&self) -> (r: crate::data::prime_iter::PrimeIter)
        requires
            self.wf(),
        ensures
            r.wf(),
            crate::theory::lists_primes_between(r.remaining(), self.start(), self.end()),
    {
        let (s, e) = self.range();
        self.iter(core::ops::RangeInclusive::new(s, e))
    }

    /// Tries to expand the current PrimeData into more PrimeData
    ///
    /// The expanded data will contain all primes in `range`.  The current
    /// store must cover the prime witnesses `[7, isqrt(range end)]`; a
    /// missing-data error reporting the uncovered sub-range comes back
    /// otherwise.
    pub fn try_expand(&self, range: core::ops::RangeInclusive<u64>) -> (r: PrimeResult<Self>)
        requires
            self.wf(),
        ensures
            match r {
                Ok(d) => self.start() <= 7 && isqrt_spec(range@.end as int) <= self.end()
                    && d.wf() && d.start() == range@.start as int && d.end() == range@.end as int,
                Err(e) => !(self.start() <= 7 && isqrt_spec(range@.end as int) <= self.end()) && (
                if self.start() > 7 {
                    e.says_missing(7, self.start() - 1)
                } else {
                    e.says_missing(self.end() + 1, isqrt_spec(range@.end as int))
                }),
            },
    {
        let (start, end) = range.into_inner();
        let end_sqrt = crate::utils::arithmetic::IntSqrt::sqrt_floor(end);
        proof {
            crate::theory::lemma_isqrt_spec_bounds(end as int);
        }
        if self.range_start > 7 {
            return Err(PrimeError::not_enough_data(ErrorAction::Modifying, 7, self.range_start
                - 1));
        }
        if end_sqrt > self.range_end {
            return Err(PrimeError::not_enough_data(
                ErrorAction::Modifying,
                self.range_end + 1,
                end_sqrt,
            ));
        }
        let mut expanded = Self::create_empty(start, end);
        if expanded.is_empty() {
            return Ok(expanded);
        }
        let primes = self.primes_between(7, end_sqrt);
        let ghost lo = start as int;
        let ghost hi = end as int;
        let mut i: usize = 0;
        proof {
            assert forall|x: int| #[trigger] expanded.marked(x) <==> (coprime30(x) && 0 <= x / 30
                - expanded.data_start() < expanded.blocks().len() && x != 1 && !struck_by_first(
                x,
                primes@,
                0,
                lo,
                hi,
            )) by {
            }
        }
        while i < primes.len()
            invariant
                i <= primes@.len(),
                expanded.structural(),
                expanded.start() == lo,
                expanded.end() == hi,
                lo == start as int,
                hi == end as int,
                0 <= lo <= hi,
                forall|j: int, j2: int| 0 <= j < j2 < primes@.len() ==> primes@[j] < primes@[j2],
                forall|j: int|
                    0 <= j < primes@.len() ==> 7 <= #[trigger] primes@[j] <= end_sqrt
                        && is_prime_spec(primes@[j] as int),
                forall|x: int|
                    7 <= x <= end_sqrt as int && is_prime_spec(x) ==> primes@.contains(x as u64),
                forall|x: int|
                    #[trigger] expanded.marked(x) <==> (coprime30(x) && 0 <= x / 30
                        - expanded.data_start() < expanded.blocks().len() && x != 1
                        && !struck_by_first(x, primes@, i as int, lo, hi)),
            decreases primes@.len() - i,
        {
            let p = primes[i];
            let ghost pi = p as int;
            proof {
                assert(7 <= pi && is_prime_spec(pi));
            }
            let ceil = crate::utils::arithmetic::Divisible::div_ceil(start, p);
            let lower_bound = if ceil < 7 {
                7
            } else {
                ceil
            };
            let upper_bound = end / p;
            proof {
                assert(ceil as int == lo / pi + (if lo % pi == 0 {
                    0int
                } else {
                    1int
                }));
                assert(lower_bound as int >= ceil as int && lower_bound as int >= 7);
                assert(upper_bound as int == hi / pi);
            }
            let mut citer = crate::data::coprime::CoprimeIter::new(
                core::ops::RangeInclusive::new(lower_bound, upper_bound),
            );
            proof {
                assert forall|x: int| !struck_by_prime_below(x, pi, lo, hi, citer.cur()) by {
                    if struck_by_prime_below(x, pi, lo, hi, citer.cur()) {
                        let w = choose|w: int|
                            coprime30(w) && 7 <= w && w < citer.cur() && x == #[trigger] (pi * w)
                                && lo <= x <= hi;
                        if w >= lower_bound as int {
                            assert(!coprime30(w));
                        } else {
                            // a multiplier below the lower bound would place
                            // the product below the target range
                            assert(lower_bound as int > 7);
                            crate::theory::lemma_multiplier_bounds(pi, w, lo, hi);
                        }
                    }
                }
            }
            loop
                invariant
                    expanded.structural(),
                    expanded.start() == lo,
                    expanded.end() == hi,
                    0 <= lo <= hi,
                    citer.wf(),
                    citer.stop() == upper_bound as int,
                    pi == p as int,
                    upper_bound as int == hi / pi,
                    hi <= u64::MAX,
                    coprime30(citer.cur()),
                    citer.cur() >= lower_bound as int,
                    lower_bound as int >= 7,
                    lower_bound as int >= lo / pi + (if lo % pi == 0 {
                        0int
                    } else {
                        1int
                    }),
                    lower_bound as int <= 7 || lower_bound as int == lo / pi + (if lo % pi == 0 {
                        0int
                    } else {
                        1int
                    }),
                    7 <= pi,
                    is_prime_spec(pi),
                    forall|x: int|
                        #[trigger] expanded.marked(x) <==> (coprime30(x) && 0 <= x / 30
                            - expanded.data_start() < expanded.blocks().len() && x != 1
                            && !struck_by_first(x, primes@, i as int, lo, hi)
                            && !struck_by_prime_below(x, pi, lo, hi, citer.cur())),
                ensures
                    citer.cur() > upper_bound as int,
                    forall|x: int|
                        #[trigger] expanded.marked(x) <==> (coprime30(x) && 0 <= x / 30
                            - expanded.data_start() < expanded.blocks().len() && x != 1
                            && !struck_by_first(x, primes@, i as int, lo, hi)
                            && !struck_by_prime_below(x, pi, lo, hi, citer.cur())),
                    expanded.structural(),
                    expanded.start() == lo,
                    expanded.end() == hi,
                decreases (if citer.cur() <= upper_bound as int {
                    upper_bound as int + 1 - citer.cur()
                } else {
                    0int
                }),
            {
                let ghost oldcur = citer.cur();
                match citer.next() {
                    Some(m) => {
                        proof {
                            crate::theory::lemma_multiplier_bounds(pi, m as int, lo, hi);
                            assert(pi * m as int <= hi);
                            assert(pi * m as int >= lo);
                            crate::theory::lemma_prime_is_wheel(pi);
                            crate::theory::lemma_coprime30_product(pi, m as int);
                        }
                        let composite_number = p * m;
                        let ghost before = expanded;
                        let res = expanded.set_nonprime(composite_number);
                        proof {
                            assert(res is Ok);
                            let c = composite_number as int;
                            assert forall|x: int| #[trigger] expanded.marked(x) <==> (coprime30(x)
                                && 0 <= x / 30 - expanded.data_start() < expanded.blocks().len()
                                && x != 1 && !struck_by_first(x, primes@, i as int, lo, hi)
                                && !struck_by_prime_below(x, pi, lo, hi, citer.cur())) by {
                                assert(expanded.marked(x) == (before.marked(x) && x != c));
                                if x == c {
                                    assert(c == pi * m as int);
                                    assert(struck_by_prime_below(x, pi, lo, hi, citer.cur()));
                                } else {
                                    assert(struck_by_prime_below(x, pi, lo, hi, citer.cur())
                                        == struck_by_prime_below(x, pi, lo, hi, oldcur)) by {
                                        if struck_by_prime_below(x, pi, lo, hi, citer.cur()) {
                                            let w = choose|w: int|
                                                coprime30(w) && 7 <= w && w < citer.cur() && x
                                                    == #[trigger] (pi * w) && lo <= x <= hi;
                                            if w >= oldcur {
                                                assert(w == oldcur || !coprime30(w));
                                                assert(x == pi * (m as int));
                                            }
                                        }
                                    }
                                }
                            }
                        }
                    },
                    None => {
                        break;
                    },
                }
            }
            proof {
                let n = i as int;
                assert forall|x: int| struck_by_first(x, primes@, n + 1, lo, hi)
                    == (struck_by_first(x, primes@, n, lo, hi) || struck_by_prime_below(
                    x,
                    pi,
                    lo,
                    hi,
                    citer.cur(),
                )) by {
                    if struck_by_first(x, primes@, n + 1, lo, hi) {
                        let (j, w): (int, int) = choose|j: int, w: int|
                            0 <= j < n + 1 && j < primes@.len() && coprime30(w) && 7 <= w && x
                                == #[trigger] (primes@[j] as int * w) && lo <= x <= hi;
                        if j == n {
                            // the full strike set of this prime lies below the
                            // final cursor: the multiplier is at most hi / p
                            crate::theory::lemma_multiplier_bounds(pi, w, lo, hi);
                            assert(w <= hi / pi);
                            assert(struck_by_prime_below(x, pi, lo, hi, citer.cur()));
                        } else {
                            assert(struck_by_first(x, primes@, n, lo, hi));
                        }
                    }
                    if struck_by_first(x, primes@, n, lo, hi) {
                        assert(struck_by_first(x, primes@, n + 1, lo, hi));
                    }
                    if struck_by_prime_below(x, pi, lo, hi, citer.cur()) {
                        let w = choose|w: int|
                            coprime30(w) && 7 <= w && w < citer.cur() && x == #[trigger] (pi * w)
                                && lo <= x <= hi;
                        assert(x == primes@[n] as int * w);
                        assert(struck_by_first(x, primes@, n + 1, lo, hi));
                    }
                }
            }
            i = i + 1;
        }
        proof {
            let s = end_sqrt as int;
            assert forall|x: int| expanded.in_range(x) && coprime30(x) implies (
            #[trigger] expanded.marked(x) <==> is_prime_spec(x)) by {
                expanded.lemma_block_index(x);
                if x == 1 {
                    lemma_small_primes();
                } else {
                    crate::theory::lemma_sieved_out_iff_composite(x, s, lo, hi);
                    assert(struck_by_first(x, primes@, primes@.len() as int, lo, hi)
                        == crate::theory::sieved_out(x, s, lo, hi)) by {
                        if struck_by_first(x, primes@, primes@.len() as int, lo, hi) {
                            let (j, w): (int, int) = choose|j: int, w: int|
                                0 <= j < primes@.len() as int && j < primes@.len() && coprime30(w)
                                    && 7 <= w && x == #[trigger] (primes@[j] as int * w) && lo <= x
                                    <= hi;
                            assert(is_prime_spec(primes@[j] as int) && 7 <= primes@[j] as int <= s);
                            assert(crate::theory::sieved_out(x, s, lo, hi));
                        }
                        if crate::theory::sieved_out(x, s, lo, hi) {
                            let (p0, w): (int, int) = choose|p0: int, w: int|
                                is_prime_spec(p0) && 7 <= p0 <= s && coprime30(w) && 7 <= w && x
                                    == p0 * w && lo <= #[trigger] (p0 * w) <= hi;
                            assert(primes@.contains(p0 as u64));
                            let j = choose|j: int|
                                0 <= j < primes@.len() && primes@[j] == p0 as u64;
                            assert(x == primes@[j] as int * w);
                            assert(struck_by_first(x, primes@, primes@.len() as int, lo, hi));
                        }
                    }
                }
            }
        }
        Ok(expanded)
    }

    /// Expands the current PrimeData into more PrimeData
    ///
    /// The expanded data will contain all primes in the given range.  The
    /// current store must cover the prime witnesses `[7, isqrt(range end)]`;
    /// [`Self::try_expand`] reports an error instead when it does not.
    pub fn expand(&self, range: core::ops::RangeInclusive<u64>) -> (r: Self)
        requires
            self.wf(),
            self.start() <= 7,
            isqrt_spec(range@.end as int) <= self.end(),
        ensures
            r.wf(),
            r.start() == range@.start as int,
            r.end() == range@.end as int,
    {
        match self.try_expand(range) {
            Ok(d) => d,
            Err(_) => vstd::pervasive::unreached(),
        }
    }

    /// Generates PrimeData with all prime numbers between the given range
    ///
    /// Small targets are sieved straight out of the base block; anything
    /// larger first generates the primes up to the square root of the range
    /// end, recursively, and expands that data into the requested range.
    pub fn generate(range: core::ops::RangeInclusive<u64>) -> (r: Self)
        ensures
            r.wf(),
            r.start() == range@.start as int,
            r.end() == range@.end as int,
        decreases range@.end as int,
    {
        let (start, end) = range.into_inner();
        if end <= 900 {
            proof {
                crate::theory::lemma_isqrt_spec_bounds(end as int);
                assert(isqrt_spec(end as int) <= 30) by (nonlinear_arith)
                    requires
                        isqrt_spec(end as int) * isqrt_spec(end as int) <= end as int,
                        end as int <= 900,
                        0 <= isqrt_spec(end as int),
                ;
            }
            PrimeData::new().expand(core::ops::RangeInclusive::new(start, end))
        } else {
            let sqrt_end = crate::utils::arithmetic::IntSqrt::sqrt_floor(end);
            proof {
                crate::theory::lemma_isqrt_spec_bounds(end as int);
                assert(sqrt_end < end) by (nonlinear_arith)
                    requires
                        sqrt_end as int * sqrt_end as int <= end as int,
                        end as int > 900,
                        0 <= sqrt_end as int,
                ;
            }
            let witness = PrimeData::generate(core::ops::RangeInclusive::new(0, sqrt_end));
            witness.expand(core::ops::RangeInclusive::new(start, end))
        }
    }

    /// Tries to find the nth prime using the given data
    ///
    /// The first three primes come back directly.  Otherwise, the store must
    /// start at or before 7 and the nth prime must lie at or below its range
    /// end — equivalently, at least `nth` primes (counting the implicit 2, 3
    /// and 5) must be at most the range end; a missing-data error comes back
    /// exactly otherwise.  The answer is normally read out of an estimated
    /// window around the nth prime; should that window miss, the store's
    /// whole covered stretch takes over, so coverage alone decides success.
    #[verifier::rlimit(30)]
    pub fn try_nth_prime(&self, nth: u64) -> (r: PrimeResult<u64>)
        requires
            self.wf(),
        ensures
            match r {
                Ok(p) => 1 <= nth && is_prime_spec(p as int) && crate::theory::prime_count(
                    2,
                    p as int,
                ) == nth as int && (nth >= 4 ==> self.start() <= 7 && crate::theory::prime_count(
                    2,
                    self.end(),
                ) >= nth as int),
                Err(e) => if nth == 0 {
                    e.says_out_of_bounds(0)
                } else {
                    nth >= 4 && e.error is NotEnoughData && (self.start() > 7
                        || crate::theory::prime_count(2, self.end()) < nth as int)
                },
            },
    {
        proof {
            lemma_small_primes();
            crate::theory::lemma_prime_count_small();
        }
        match nth {
            0 => {
                return Err(PrimeError::out_of_bounds(ErrorAction::Reading, nth));
            },
            1 => {
                return Ok(2);
            },
            2 => {
                return Ok(3);
            },
            3 => {
                return Ok(5);
            },
            _ => {},
        }
        if self.range_start > 7 {
            return Err(PrimeError::not_enough_data(ErrorAction::Reading, 7, self.range_start - 1));
        }
        let in_store = self.count_primes();
        // the store never represents 2, 3 and 5 as bits; a start above them
        // leaves them out of its count although they precede every range
        let smalls: u64 = (if self.range_start > 2 {
            1u64
        } else {
            0u64
        }) + (if self.range_start > 3 {
            1u64
        } else {
            0u64
        }) + (if self.range_start > 5 {
            1u64
        } else {
            0u64
        });
        proof {
            if self.start() <= self.end() {
                crate::theory::lemma_prime_count_small_start(self.start(), self.end());
                crate::theory::lemma_prime_count_upper(2, self.end());
            } else {
                crate::theory::lemma_prime_count_reversed(self.start(), self.end());
            }
        }
        let total = in_store + smalls;
        if total < nth {
            proof {
                if self.start() > self.end() {
                    // an empty store ends below 7, so below it sit at most
                    // the three small primes — fewer than nth in any case
                    crate::theory::lemma_prime_count_monotone(2, self.end(), 2, 6);
                }
            }
            let missing_from = if self.range_end < u64::MAX {
                self.range_end + 1
            } else {
                u64::MAX
            };
            return Err(PrimeError::not_enough_data(ErrorAction::Reading, missing_from, u64::MAX));
        }
        proof {
            // enough primes force a nonempty store reaching at least 7
            if self.start() > self.end() {
                assert(in_store == 0);
            }
            assert(total as int == crate::theory::prime_count(2, self.end()));
            if self.end() < 7 {
                crate::theory::lemma_prime_count_monotone(2, self.end(), 2, 6);
            }
            assert(self.end() >= 7);
        }
        let bounds = crate::data::estimate::nth_prime_bounds(nth);
        let (unchecked_start, unchecked_end) = bounds.into_inner();
        let wstart: u64 = if unchecked_start < 7 {
            7
        } else {
            unchecked_start
        };
        let wend: u64 = if self.range_end < unchecked_end {
            self.range_end
        } else {
            unchecked_end
        };
        if wstart <= wend {
            let below = self.count_primes_in_range(core::ops::RangeInclusive::new(7, wstart));
            proof {
                crate::theory::lemma_prime_count_upper(7, wstart as int);
            }
            let start_is_prime = self.is_prime(wstart);
            let offset = 3 + below - (if start_is_prime {
                1u64
            } else {
                0u64
            });
            proof {
                // primes below the window start: 2, 3, 5 and those in [7, wstart)
                crate::theory::lemma_prime_count_split(2, 6, wstart as int - 1);
                crate::theory::lemma_prime_count_split(7, wstart as int - 1, wstart as int);
                assert(offset as int == crate::theory::prime_count(2, wstart as int - 1));
            }
            if nth > offset {
                let ps = self.primes_between(wstart, wend);
                let idx = nth - offset - 1;
                proof {
                    assert(crate::theory::lists_primes_between(ps@, wstart as int, wend as int));
                    crate::theory::lemma_prime_list_len(ps@, wstart as int, wend as int);
                }
                if idx < ps.len() as u64 {
                    let p = ps[idx as usize];
                    proof {
                        crate::theory::lemma_prime_list_index(
                            ps@,
                            wstart as int,
                            wend as int,
                            idx as int,
                        );
                        crate::theory::lemma_prime_count_split(2, wstart as int - 1, p as int);
                        crate::theory::lemma_prime_count_monotone(2, p as int, 2, self.end());
                    }
                    return Ok(p);
                }
            }
        }
        // the estimator's window missed the nth prime: read it out of the
        // store's whole covered stretch instead
        let p = self.nth_prime_from_store(nth);
        proof {
            crate::theory::lemma_prime_count_monotone(2, p as int, 2, self.end());
        }
        Ok(p)
    }

    // Reads the nth prime straight out of the store's covered stretch; the
    // store must start at or before 7 and hold the answer below its end.
    fn nth_prime_from_store(&self, nth: u64) -> (p: u64)
        requires
            self.wf(),
            4 <= nth,
            self.start() <= 7,
            7 <= self.end(),
            crate::theory::prime_count(2, self.end()) >= nth as int,
        ensures
            is_prime_spec(p as int),
            crate::theory::prime_count(2, p as int) == nth as int,
            p as int <= self.end(),
    {
        proof {
            crate::theory::lemma_prime_count_small();
        }
        let ps = self.primes_between(7, self.range_end);
        proof {
            assert(crate::theory::lists_primes_between(ps@, 7, self.end()));
            crate::theory::lemma_prime_list_len(ps@, 7, self.end());
            crate::theory::lemma_prime_count_split(2, 6, self.end());
            assert(ps@.len() as int >= nth as int - 3);
        }
        let idx = nth - 4;
        let p = ps[idx as usize];
        proof {
            assert(7 <= p && p <= self.range_end && is_prime_spec(p as int));
            crate::theory::lemma_prime_list_index(ps@, 7, self.end(), idx as int);
            assert(crate::theory::prime_count(7, p as int) == idx as int + 1);
            crate::theory::lemma_prime_count_split(2, 6, p as int);
            assert(crate::theory::prime_count(2, 6) == 3);
            assert(crate::theory::prime_count(2, p as int) == nth as int);
        }
        p
    }

    /// Retrieves the nth prime number from some data
    ///
    /// If we call "nth prime number" as p(n), we have that p(1) = 2, because
    /// 2 is the first prime number.  The "zeroth" prime number is not
    /// defined; beyond the third prime, the store must start at or before 7
    /// and the nth prime must lie at or below its range end.
    /// [`Self::try_nth_prime`] reports errors instead of carrying
    /// preconditions.
    pub fn nth_prime(&self, nth: u64) -> (r: u64)
        requires
            self.wf(),
            1 <= nth,
            nth > 3 ==> self.start() <= 7 && crate::theory::prime_count(2, self.end())
                >= nth as int,
        ensures
            is_prime_spec(r as int),
            crate::theory::prime_count(2, r as int) == nth as int,
    {
        match self.try_nth_prime(nth) {
            Ok(p) => p,
            Err(_) => vstd::pervasive::unreached(),
        }
    }

    /// Tries to verify if the given number is prime, even when the number
    /// lies outside the store's range
    ///
    /// A number inside the range is answered from its bit.  A number outside
    /// is tested against the small primes 2, 3 and 5 and then trial-divided
    /// by every stored prime in `[7, isqrt(x)]`, provided the store covers
    /// that whole span; otherwise a missing-data error reports the uncovered
    /// sub-range.  Either way the answer is true primality.
    pub fn try_check_prime(&self, x: u64) -> (r: PrimeResult<bool>)
        requires
            self.wf(),
        ensures
            match r {
                Ok(b) => (self.in_range(x as int) || (self.start() <= 7 && isqrt_spec(x as int)
                    <= self.end())) && b == is_prime_spec(x as int),
                Err(e) => !self.in_range(x as int) && !(self.start() <= 7 && isqrt_spec(x as int)
                    <= self.end()) && (if self.start() > 7 {
                    e.says_missing(7, self.start() - 1)
                } else {
                    e.says_missing(self.end() + 1, isqrt_spec(x as int))
                }),
            },
    {
        if self.range_start <= x && x <= self.range_end {
            self.try_is_prime(x)
        } else {
            let sqrt = crate::utils::arithmetic::IntSqrt::sqrt_floor(x);
            proof {
                crate::theory::lemma_isqrt_spec_bounds(x as int);
            }
            if self.range_start > 7 {
                return Err(PrimeError::not_enough_data(ErrorAction::Reading, 7, self.range_start
                    - 1));
            }
            if sqrt > self.range_end {
                return Err(PrimeError::not_enough_data(
                    ErrorAction::Reading,
                    self.range_end + 1,
                    sqrt,
                ));
            }
            if (x == 2) || (x == 3) || (x == 5) {
                proof {
                    lemma_small_primes();
                }
                return Ok(true);
            }
            if x < 2 {
                proof {
                    lemma_small_primes();
                }
                return Ok(false);
            }
            if x % 2 == 0 {
                proof {
                    crate::theory::lemma_small_divisor_composite(x as int, 2);
                }
                return Ok(false);
            }
            if x % 3 == 0 {
                proof {
                    crate::theory::lemma_small_divisor_composite(x as int, 3);
                }
                return Ok(false);
            }
            if x % 5 == 0 {
                proof {
                    crate::theory::lemma_small_divisor_composite(x as int, 5);
                }
                return Ok(false);
            }
            let witnesses = self.primes_between(7, sqrt);
            let mut i: usize = 0;
            while i < witnesses.len()
                invariant
                    i <= witnesses@.len(),
                    sqrt as int == isqrt_spec(x as int),
                    self.wf(),
                    !self.in_range(x as int),
                    self.start() <= 7,
                    isqrt_spec(x as int) <= self.end(),
                    x != 2 && x != 3 && x != 5,
                    x >= 2,
                    x % 2 != 0 && x % 3 != 0 && x % 5 != 0,
                    forall|j: int|
                        0 <= j < witnesses@.len() ==> 7 <= #[trigger] witnesses@[j] <= sqrt
                            && is_prime_spec(witnesses@[j] as int),
                    forall|y: int|
                        7 <= y <= sqrt as int && is_prime_spec(y) ==> witnesses@.contains(y as u64),
                    forall|j: int| 0 <= j < i as int ==> x as int % (#[trigger] witnesses@[j] as int)
                        != 0,
                decreases witnesses@.len() - i,
            {
                let p = witnesses[i];
                if x % p == 0 {
                    proof {
                        assert(7 <= witnesses@[i as int] <= sqrt && is_prime_spec(
                            witnesses@[i as int] as int,
                        ));
                        assert(p == witnesses@[i as int]);
                        crate::theory::lemma_isqrt_spec_bounds(x as int);
                        // the witness is a proper divisor: it stays below x
                        assert((p as int) < x as int) by (nonlinear_arith)
                            requires
                                p as int <= isqrt_spec(x as int),
                                isqrt_spec(x as int) * isqrt_spec(x as int) <= x as int,
                                0 <= isqrt_spec(x as int),
                                7 <= p,
                                x >= 2,
                        ;
                        crate::theory::lemma_small_divisor_composite(x as int, p as int);
                    }
                    return Ok(false);
                }
                i = i + 1;
            }
            proof {
                crate::theory::lemma_has_prime_divisor_iff(x as int, 7, isqrt_spec(x as int));
                if crate::theory::has_prime_divisor_in(x as int, 7, isqrt_spec(x as int)) {
                    let d = choose|d: int|
                        7 <= d <= isqrt_spec(x as int) && is_prime_spec(d) && #[trigger] (
                        x as int % d) == 0;
                    assert(witnesses@.contains(d as u64));
                    let j = choose|j: int| 0 <= j < witnesses@.len() && witnesses@[j] == d as u64;
                    assert(x as int % (witnesses@[j] as int) != 0);
                }
                crate::theory::lemma_no_witness_prime(x as int);
            }
            Ok(true)
        }
    }

    /// Verifies if the given number is prime, even when the number lies
    /// outside the store's range
    ///
    /// Either the number lies in the store's range, or the store must cover
    /// `[7, isqrt(x)]` for the trial division; [`Self::try_check_prime`]
    /// reports an error instead when neither holds.
    pub fn check_prime(&self, x: u64) -> (r: bool)
        requires
            self.wf(),
            self.in_range(x as int) || (self.start() <= 7 && isqrt_spec(x as int) <= self.end()),
        ensures
            r == is_prime_spec(x as int),
    {
        match self.try_check_prime(x) {
            Ok(b) => b,
            Err(_) => vstd::pervasive::unreached(),
        }
    }

    /// Collects every prime in `[lo, hi]`, in ascending order.  The store
    /// must cover the requested range (a reversed range needs no coverage
    /// and yields nothing).
    pub(crate) fn primes_between(&self, lo: u64, hi: u64) -> (r: Vec<u64>)
        requires
            self.wf(),
            lo > hi || (self.start() <= lo as int && hi as int <= self.end()),
        ensures
            forall|i: int, j: int| 0 <= i < j < r@.len() ==> r@[i] < r@[j],
            forall|i: int|
                0 <= i < r@.len() ==> lo <= #[trigger] r@[i] <= hi && is_prime_spec(r@[i] as int),
            forall|x: int|
                lo as int <= x <= hi as int && is_prime_spec(x) ==> r@.contains(x as u64),
    {
        let mut v: Vec<u64> = Vec::new();
        if lo > hi {
            return v;
        }
        proof {
            lemma_small_primes();
        }
        if lo <= 2 && 2 <= hi {
            v.push(2);
        }
        if lo <= 3 && 3 <= hi {
            v.push(3);
        }
        if lo <= 5 && 5 <= hi {
            v.push(5);
        }
        let mut iter = crate::data::coprime::CoprimeIter::new(
            core::ops::RangeInclusive::new(lo, hi),
        );
        proof {
            assert forall|x: int|
                (x == 2 || x == 3 || x == 5) && lo as int <= x <= hi as int implies #[trigger] v@
                .contains(x as u64) by {
                let j: int = if x == 2 {
                    0
                } else if x == 3 {
                    if lo <= 2 {
                        1
                    } else {
                        0
                    }
                } else {
                    v@.len() - 1
                };
                assert(v@[j] == x as u64);
            }
            assert forall|x: int|
                lo as int <= x <= hi as int && x < iter.cur() && is_prime_spec(x) implies
                v@.contains(x as u64) by {
                if x != 2 && x != 3 && x != 5 {
                    crate::theory::lemma_prime_is_wheel(x);
                }
                assert(v@.contains(x as u64));
            }
        }
        loop
            invariant
                self.wf(),
                lo <= hi,
                self.start() <= lo as int && hi as int <= self.end(),
                iter.wf(),
                iter.stop() == hi as int,
                coprime30(iter.cur()),
                iter.cur() >= lo as int,
                forall|i: int, j: int| 0 <= i < j < v@.len() ==> v@[i] < v@[j],
                forall|i: int|
                    0 <= i < v@.len() ==> lo <= #[trigger] v@[i] <= hi && is_prime_spec(
                        v@[i] as int,
                    ),
                forall|i: int|
                    0 <= i < v@.len() ==> (v@[i] == 2 || v@[i] == 3 || v@[i] == 5 || (#[trigger] v@[
                        i] as int) < iter.cur()),
                forall|x: int|
                    lo as int <= x <= hi as int && x < iter.cur() && is_prime_spec(x)
                        ==> v@.contains(x as u64),
                forall|x: int|
                    (x == 2 || x == 3 || x == 5) && lo as int <= x <= hi as int
                        ==> #[trigger] v@.contains(x as u64),
            ensures
                iter.cur() > hi as int,
                forall|i: int, j: int| 0 <= i < j < v@.len() ==> v@[i] < v@[j],
                forall|i: int|
                    0 <= i < v@.len() ==> lo <= #[trigger] v@[i] <= hi && is_prime_spec(
                        v@[i] as int,
                    ),
                forall|x: int|
                    lo as int <= x <= hi as int && x < iter.cur() && is_prime_spec(x)
                        ==> v@.contains(x as u64),
            decreases (if iter.cur() <= hi as int {
                hi as int + 1 - iter.cur()
            } else {
                0int
            }),
        {
            let ghost oldcur = iter.cur();
            let ghost oldv = v@;
            match iter.next() {
                Some(c) => {
                    let b = self.is_prime(c);
                    proof {
                        if b {
                            crate::theory::lemma_prime_is_wheel(c as int);
                        }
                    }
                    if b {
                        v.push(c);
                    }
                    proof {
                        assert forall|x: int|
                            lo as int <= x <= hi as int && x < iter.cur() && is_prime_spec(x)
                            implies v@.contains(x as u64) by {
                            if x < oldcur {
                                let j = choose|j: int|
                                    0 <= j < oldv.len() && oldv[j] == x as u64;
                                assert(v@[j] == x as u64);
                            } else if x == oldcur {
                                assert(b);
                                assert(v@[v@.len() - 1] == x as u64);
                            } else {
                                // between consecutive candidates nothing is
                                // coprime with 30, so a prime there is 2, 3
                                // or 5, which the prefix already holds
                                assert(!coprime30(x));
                                if x != 2 && x != 3 && x != 5 {
                                    crate::theory::lemma_prime_is_wheel(x);
                                }
                                assert(oldv.contains(x as u64));
                                let j = choose|j: int|
                                    0 <= j < oldv.len() && oldv[j] == x as u64;
                                assert(v@[j] == x as u64);
                            }
                        }
                        assert forall|x: int|
                            (x == 2 || x == 3 || x == 5) && lo as int <= x <= hi as int implies
                            #[trigger] v@.contains(x as u64) by {
                            assert(oldv.contains(x as u64));
                            let j = choose|j: int| 0 <= j < oldv.len() && oldv[j] == x as u64;
                            assert(v@[j] == x as u64);
                        }
                    }
                },
                None => {
                    break;
                },
            }
        }
        v
    }

    /// A stored block's restricted count equals the number of wheel primes
    /// in the corresponding slice of its thirty-wide window, as long as that
    /// slice lies inside the store's valid range.
    proof fn lemma_block_count(self, j: int, kl: int, kh: int)
        requires
            self.wf(),
            0 <= j < self.blocks().len(),
            0 <= kl,
            kh <= 29,
            kl > kh || (self.start() <= 30 * (self.data_start() + j) + kl && 30 * (
            self.data_start() + j) + kh <= self.end()),
        ensures
            self.blocks()[j].count_marked_between(kl, kh) == crate::theory::wheel_prime_count(
                30 * (self.data_start() + j) + kl,
                30 * (self.data_start() + j) + kh,
            ),
        decreases kh - kl + 1,
    {
        let w0 = 30 * (self.data_start() + j);
        if kl > kh {
        } else {
            self.lemma_block_count(j, kl, kh - 1);
            let x = w0 + kh;
            lemma_mod30_window(self.data_start() + j, kh);
            assert(x % 30 == kh && x / 30 == self.data_start() + j);
            if is_k_value(kh) {
                assert(self.marked(x) == self.blocks()[j].marked(kh));
                assert(self.marked(x) <==> is_prime_spec(x));
            }
        }
    }

    /// Tries to count the amount of prime numbers in a given range
    ///
    /// The queried range must lie inside the store's own range; a
    /// missing-data error reporting the uncovered sub-range comes back
    /// otherwise.  A reversed range (start above end) counts zero.
    pub fn try_count_primes_in_range(&self, range: core::ops::RangeInclusive<u64>) -> (r:
        PrimeResult<u64>)
        requires
            self.wf(),
        ensures
            match r {
                Ok(c) => self.start() <= range@.start as int && range@.end as int <= self.end()
                    && c as int == crate::theory::prime_count(
                    range@.start as int,
                    range@.end as int,
                ),
                Err(e) => !(self.start() <= range@.start as int && range@.end as int
                    <= self.end()) && (if self.start() > range@.start as int {
                    e.says_missing(range@.start as int, self.start() - 1)
                } else {
                    e.says_missing(self.end() + 1, range@.end as int)
                }),
            },
    {
        let (a, b) = range.into_inner();
        if self.range_start > a {
            return Err(PrimeError::not_enough_data(ErrorAction::Reading, a, self.range_start - 1));
        }
        if b > self.range_end {
            return Err(PrimeError::not_enough_data(ErrorAction::Reading, self.range_end + 1, b));
        }
        if a > b {
            return Ok(0);
        }
        proof {
            crate::theory::lemma_count_decomposition(a as int, b as int);
            lemma_small_primes();
        }
        // the primes 2, 3 and 5 are not represented as bits
        let mut count: u64 = 0;
        if a <= 2 && 2 <= b {
            count = count + 1;
        }
        if a <= 3 && 3 <= b {
            count = count + 1;
        }
        if a <= 5 && 5 <= b {
            count = count + 1;
        }
        proof {
            assert(count as int == crate::theory::small_primes_in(a as int, b as int));
            assert(crate::theory::wheel_prime_count(a as int, 30 * (a as int / 30) - 1) == 0);
        }
        let ds = self.range_start / 30;
        let mut jb: u64 = a / 30;
        proof {
            vstd::arithmetic::div_mod::lemma_fundamental_div_mod(a as int, 30);
            vstd::arithmetic::div_mod::lemma_mod_pos_bound(a as int, 30);
        }
        while jb <= b / 30
            invariant
                self.wf(),
                self.start() <= a as int,
                b as int <= self.end(),
                a <= b,
                ds as int == self.data_start(),
                a as int / 30 <= jb as int <= b as int / 30 + 1,
                count as int == crate::theory::small_primes_in(a as int, b as int)
                    + crate::theory::wheel_prime_count(
                    a as int,
                    if 30 * jb as int - 1 <= b as int {
                        30 * jb as int - 1
                    } else {
                        b as int
                    },
                ),
            decreases b as int / 30 + 1 - jb as int,
        {
            let ghost c0 = 30 * jb as int - 1;
            proof {
                vstd::arithmetic::div_mod::lemma_div_is_ordered(30 * jb as int, b as int, 30);
                lemma_mod30_window(jb as int, 0);
                assert(30 * jb as int <= b as int) by {
                    vstd::arithmetic::div_mod::lemma_fundamental_div_mod(b as int, 30);
                    vstd::arithmetic::div_mod::lemma_mod_pos_bound(b as int, 30);
                    vstd::arithmetic::mul::lemma_mul_inequality(
                        jb as int,
                        b as int / 30,
                        30,
                    );
                    vstd::arithmetic::mul::lemma_mul_is_commutative(jb as int, 30);
                    vstd::arithmetic::mul::lemma_mul_is_commutative(b as int / 30, 30);
                }
            }
            let w0 = 30 * jb;
            let kl: u8 = if a > w0 {
                proof {
                    vstd::arithmetic::div_mod::lemma_fundamental_div_mod(a as int, 30);
                    vstd::arithmetic::div_mod::lemma_mod_pos_bound(a as int, 30);
                    assert(a as int / 30 == jb as int) by {
                        vstd::arithmetic::div_mod::lemma_div_is_ordered(a as int, b as int, 30);
                        if a as int / 30 > jb as int {
                            vstd::arithmetic::div_mod::lemma_fundamental_div_mod_converse(
                                a as int,
                                30,
                                a as int / 30,
                                a as int % 30,
                            );
                            vstd::arithmetic::mul::lemma_mul_inequality(
                                jb as int + 1,
                                a as int / 30,
                                30,
                            );
                            vstd::arithmetic::mul::lemma_mul_is_commutative(a as int / 30, 30);
                            vstd::arithmetic::mul::lemma_mul_is_commutative(jb as int + 1, 30);
                        }
                    }
                }
                (a - w0) as u8
            } else {
                0
            };
            let kh: u8 = if b - w0 < 29 {
                (b - w0) as u8
            } else {
                29
            };
            let ghost c1: int = if (b as int - w0 as int) < 29 {
                b as int
            } else {
                w0 as int + 29
            };
            proof {
                assert(w0 as int + kl as int == if a as int > w0 as int {
                    a as int
                } else {
                    w0 as int
                });
                assert(w0 as int + kh as int == c1);
            }
            let j_rel = jb - ds;
            proof {
                vstd::arithmetic::div_mod::lemma_div_is_ordered(
                    self.start(),
                    a as int,
                    30,
                );
            }
            if j_rel < self.data.len() as u64 {
                let cnt = self.data[j_rel as usize].count_primes_in_range(
                    core::ops::RangeInclusive::new(kl, kh),
                );
                proof {
                    assert(30 * (self.data_start() + j_rel as int) == w0 as int);
                    assert(self.start() <= w0 as int + kl as int && w0 as int + kh as int
                        <= self.end());
                    self.lemma_block_count(j_rel as int, kl as int, kh as int);
                    crate::theory::lemma_wheel_count_bound(a as int, c1);
                    if a as int > w0 as int {
                        // first block: counting starts exactly at the range
                        // start, and nothing was counted yet
                        assert(w0 as int + kl as int == a as int);
                        assert(crate::theory::wheel_prime_count(a as int, c0) == 0);
                    } else {
                        assert(crate::theory::wheel_prime_count(a as int, c1)
                            == crate::theory::wheel_prime_count(a as int, c0)
                            + crate::theory::wheel_prime_count(c0 + 1, c1)) by {
                            crate::theory::lemma_wheel_count_split(a as int, c0, c1);
                        }
                    }
                }
                count = count + cnt;
            } else {
                proof {
                    // past the last stored block: only the final value of a
                    // range ending on a block boundary lands here, and a
                    // multiple of thirty is never a wheel prime
                    assert(jb as int >= self.data_end());
                    vstd::arithmetic::div_mod::lemma_div_is_ordered(b as int, self.end(), 30);
                    assert(jb as int == b as int / 30 && b as int % 30 == 0) by {
                        vstd::arithmetic::div_mod::lemma_fundamental_div_mod(b as int, 30);
                        vstd::arithmetic::div_mod::lemma_mod_pos_bound(b as int, 30);
                        vstd::arithmetic::div_mod::lemma_fundamental_div_mod(self.end(), 30);
                        vstd::arithmetic::div_mod::lemma_mod_pos_bound(self.end(), 30);
                    }
                    assert(c1 == b as int && c0 == b as int - 1);
                    assert(!coprime30(b as int));
                    assert(crate::theory::wheel_prime_count(b as int, b as int - 1) == 0);
                    assert(crate::theory::wheel_prime_count(b as int, b as int) == 0);
                    crate::theory::lemma_wheel_count_split(a as int, b as int - 1, b as int);
                }
            }
            jb = jb + 1;
            proof {
                if jb as int <= b as int / 30 {
                    assert(30 * jb as int - 1 <= b as int) by {
                        vstd::arithmetic::mul::lemma_mul_inequality(jb as int, b as int / 30, 30);
                        vstd::arithmetic::mul::lemma_mul_is_commutative(jb as int, 30);
                        vstd::arithmetic::mul::lemma_mul_is_commutative(b as int / 30, 30);
                        vstd::arithmetic::div_mod::lemma_fundamental_div_mod(b as int, 30);
                        vstd::arithmetic::div_mod::lemma_mod_pos_bound(b as int, 30);
                    }
                }
            }
        }
        proof {
            // the loop has covered every block: the cap has reached the end
            assert(30 * jb as int - 1 >= b as int) by {
                vstd::arithmetic::div_mod::lemma_fundamental_div_mod(b as int, 30);
                vstd::arithmetic::div_mod::lemma_mod_pos_bound(b as int, 30);
                vstd::arithmetic::mul::lemma_mul_inequality(b as int / 30 + 1, jb as int, 30);
                vstd::arithmetic::mul::lemma_mul_is_commutative(jb as int, 30);
                vstd::arithmetic::mul::lemma_mul_is_commutative(b as int / 30 + 1, 30);
            }
            assert((if 30 * jb as int - 1 <= b as int {
                30 * jb as int - 1
            } else {
                b as int
            }) == b as int);
        }
        Ok(count)
    }

    /// Counts the amount of prime numbers in a given range
    ///
    /// A reversed range counts zero.  The queried range must lie inside the
    /// store's own range; [`Self::try_count_primes_in_range`] reports an
    /// error instead when it does not.
    pub fn count_primes_in_range(&self, range: core::ops::RangeInclusive<u64>) -> (r: u64)
        requires
            self.wf(),
            self.start() <= range@.start as int,
            range@.end as int <= self.end(),
        ensures
            r as int == crate::theory::prime_count(range@.start as int, range@.end as int),
    {
        match self.try_count_primes_in_range(range) {
            Ok(c) => c,
            Err(_) => vstd::pervasive::unreached(),
        }
    }

    /// Counts the amount of prime numbers in the entire data
    pub fn count_primes(&self) -> (r: u64)
        requires
            self.wf(),
        ensures
            r as int == crate::theory::prime_count(self.start(), self.end()),
    {
        let (s, e) = self.range();
        self.count_primes_in_range(core::ops::RangeInclusive::new(s, e))
    }

    /// Tries to verify if the given number is prime
    ///
    /// Returns an out-of-bounds error if the store's range does not contain
    /// `x` or the store is empty; otherwise says exactly whether `x` is
    /// prime.
    pub fn try_is_prime(&self, x: u64) -> (r: PrimeResult<bool>)
        requires
            self.wf(),
        ensures
            match r {
                Ok(b) => self.in_range(x as int) && !self.is_empty_spec() && b == is_prime_spec(
                    x as int,
                ),
                Err(e) => !(self.in_range(x as int) && !self.is_empty_spec())
                    && e.says_out_of_bounds(x as int),
            },
    {
        if self.range_start <= x && x <= self.range_end && !self.is_empty() {
            proof {
                lemma_small_primes();
            }
            if (x == 2) || (x == 3) || (x == 5) {
                return Ok(true);
            }
            if x % 30 == 0 {
                proof {
                    lemma_mult30_not_prime(x as int);
                }
                return Ok(false);
            }
            proof {
                self.lemma_block_index(x as int);
                vstd::arithmetic::div_mod::lemma_mod_pos_bound(x as int, 30);
            }
            let len = self.data.len();
            let index_u64 = x / 30 - self.range_start / 30;
            proof {
                assert(index_u64 as int == x as int / 30 - self.data_start());
                assert((index_u64 as int) < len as int);
            }
            let index = index_u64 as usize;
            let b = self.data[index].is_prime((x % 30) as u8);
            proof {
                if is_k_value(x as int % 30) {
                    assert(self.marked(x as int) == b);
                } else {
                    lemma_nonwheel_not_prime(x as int);
                }
            }
            Ok(b)
        } else {
            Err(PrimeError::out_of_bounds(ErrorAction::Reading, x))
        }
    }

    /// Verifies if the given number is prime
    ///
    /// The number must lie in the store's range (and the store must not be
    /// empty); [`Self::try_is_prime`] reports an error instead for numbers
    /// outside it.
    pub fn is_prime(&self, x: u64) -> (r: bool)
        requires
            self.wf(),
            self.in_range(x as int),
            !self.is_empty_spec(),
        ensures
            r == is_prime_spec(x as int),
    {
        match self.try_is_prime(x) {
            Ok(b) => b,
            Err(_) => vstd::pervasive::unreached(),
        }
    }
}

/// A positive multiple of thirty is composite, and zero is not prime.
proof fn lemma_mult30_not_prime(x: int)
    requires
        x >= 0,
        x % 30 == 0,
    ensures
        !is_prime_spec(x),
{
    if x >= 2 {
        assert(x % 2 == 0) by {
            vstd::arithmetic::div_mod::lemma_mod_mod(x, 2, 15);
        }
        crate::theory::lemma_divisor_le(2, x);
        assert(x != 2 && x != 3 && x != 5) by {
            vstd::arithmetic::div_mod::lemma_small_mod(2, 30);
            vstd::arithmetic::div_mod::lemma_small_mod(3, 30);
            vstd::arithmetic::div_mod::lemma_small_mod(5, 30);
        }
        crate::theory::lemma_has_divisor_iff(x, 2, x - 1);
    }
}

} // verus!
