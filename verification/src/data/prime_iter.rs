//! An iterator over the primes a store holds, restricted to a sub-range.

use vstd::prelude::*;

verus! {

use crate::data::prime_data::PrimeData;
use crate::data::error::{PrimeResult, PrimeError, ErrorAction};
use crate::theory::lists_primes_between;

/// Struct that iterates over prime numbers from some data.
///
/// Built from a prime store and a sub-range of it, it yields the primes of
/// that sub-range in ascending order.  The primes are extracted once at
/// construction; the iterator then walks them with a cursor.
pub struct PrimeIter {
    primes: Vec<u64>,
    cursor: usize,
}

impl PrimeIter {
    /// The cursor has not run past the extracted primes.
    pub closed spec fn wf(self) -> bool {
        self.cursor <= self.primes@.len()
    }

    /// The primes the iterator has not yet yielded, in ascending order.
    pub closed spec fn remaining(self) -> Seq<u64> {
        self.primes@.skip(self.cursor as int)
    }

    /// Creates an iterator over some prime store within a given range.
    ///
    /// The range must be contained in the store's range; a missing-data
    /// error reporting the uncovered sub-range comes back otherwise.
    pub fn new(prime_data: &PrimeData, range: core::ops::RangeInclusive<u64>) -> (r: PrimeResult<
        Self,
    >)
        requires
            prime_data.wf(),
        ensures
            match r {
                Ok(it) => prime_data.start() <= range@.start as int && range@.end as int
                    <= prime_data.end() && it.wf() && lists_primes_between(
                    it.remaining(),
                    range@.start as int,
                    range@.end as int,
                ),
                Err(e) => !(prime_data.start() <= range@.start as int && range@.end as int
                    <= prime_data.end()) && (if prime_data.start() > range@.start as int {
                    e.says_missing(range@.start as int, prime_data.start() - 1)
                } else {
                    e.says_missing(prime_data.end() + 1, range@.end as int)
                }),
            },
    {
        let (range_start, stop_at) = range.into_inner();
        let (data_start, data_end) = prime_data.range();
        if data_start > range_start {
            return Err(PrimeError::not_enough_data(ErrorAction::Reading, range_start, data_start
                - 1));
        }
        if stop_at > data_end {
            return Err(PrimeError::not_enough_data(ErrorAction::Reading, data_end + 1, stop_at));
        }
        let primes = prime_data.primes_between(range_start, stop_at);
        let it = Self { primes, cursor: 0 };
        proof {
            assert(it.remaining() =~= it.primes@);
        }
        Ok(it)
    }

    /// Yields the next prime of the sub-range, in ascending order, or
    /// nothing once all of them are out.
    pub fn next(&mut self) -> (r: Option<u64>)
        requires
            old(self).wf(),
        ensures
            final(self).wf(),
            match r {
                Some(v) => old(self).remaining().len() > 0 && v == old(self).remaining()[0]
                    && final(self).remaining() == old(self).remaining().skip(1),
                None => old(self).remaining().len() == 0 && *final(self) == *old(self),
            },
    {
        if self.cursor < self.primes.len() {
            let v = self.primes[self.cursor];
            self.cursor = self.cursor + 1;
            proof {
                assert(self.remaining() =~= old(self).remaining().skip(1));
            }
            Some(v)
        } else {
            None
        }
    }

    /// The primes not yet yielded, as a vector (consuming the iterator).
    pub fn collect_remaining(self) -> (r: Vec<u64>)
        requires
            self.wf(),
        ensures
            r@ == self.remaining(),
    {
        let mut out: Vec<u64> = Vec::new();
        let mut it = self;
        loop
            invariant
                it.wf(),
                out@ + it.remaining() == self.remaining(),
            ensures
                out@ == self.remaining(),
            decreases it.remaining().len(),
        {
            let ghost before = out@;
            let ghost rem_before = it.remaining();
            match it.next() {
                Some(v) => {
                    out.push(v);
                    proof {
                        assert(rem_before =~= seq![v] + it.remaining());
                        assert(out@ =~= before + seq![v]);
                        assert(out@ + it.remaining() =~= before + rem_before);
                    }
                },
                None => {
                    proof {
                        assert(out@ + it.remaining() =~= out@);
                    }
                    break;
                },
            }
        }
        out
    }
}

} // verus!
