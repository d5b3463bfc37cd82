//! An iterator over the integers coprime with 30, in ascending order.

use vstd::prelude::*;

verus! {

use crate::theory::{coprime30, is_k_value, k_value, lemma_mod30_window};
use crate::data::prime_byte::k_value_at;

/// Struct that iterates over numbers that are coprime with 2, 3, and 5
/// (a.k.a. 30), within an inclusive range, in ascending order.
///
/// The cursor holds a block multiplier and an index into the ascending list
/// of the eight k-values; the current candidate is `30 * multiplier +
/// k_value(index)`.
pub struct CoprimeIter {
    current: (u64, usize),
    stop_after: u64,
}

impl CoprimeIter {
    /// The cursor state is a valid k-value index.
    pub closed spec fn wf(self) -> bool {
        self.current.1 < 8
    }

    /// The candidate the next call will consider.
    pub closed spec fn cur(self) -> int {
        30 * self.current.0 as int + k_value(self.current.1 as int)
    }

    /// The last value the iterator may still yield.
    pub closed spec fn stop(self) -> int {
        self.stop_after as int
    }

    /// Creates a new iterator over numbers coprime with 30
    ///
    /// The first candidate is the smallest coprime-30 integer at or above the
    /// range's start; iteration ends beyond the range's end.
    pub fn new(range: core::ops::RangeInclusive<u64>) -> (r: Self)
        ensures
            r.wf(),
            r.stop() == range@.end as int,
            coprime30(r.cur()),
            r.cur() >= range@.start as int,
            forall|v: int| range@.start as int <= v < r.cur() ==> !coprime30(v),
    {
        let (start, end) = range.into_inner();
        let offset = start / 30;
        let value = (start % 30) as u8;
        let index = k_index_ge(value);
        proof {
            vstd::arithmetic::div_mod::lemma_fundamental_div_mod(start as int, 30);
            let c = 30 * offset as int + k_value(index as int);
            lemma_mod30_window(offset as int, k_value(index as int));
            assert forall|v: int| start as int <= v < c implies !coprime30(v) by {
                let w = v - 30 * offset as int;
                assert(value as int <= w < k_value(index as int));
                lemma_mod30_window(offset as int, w);
                assert(v % 30 == w);
                if is_k_value(w) {
                    // any k-value below the chosen one sits below the start residue
                    crate::data::prime_byte::lemma_k_index_inverse();
                    crate::data::prime_byte::lemma_k_value_increasing();
                    let j = crate::theory::k_index(w);
                    assert(k_value(j) == w && 0 <= j < 8);
                    assert(j < index as int);
                    assert(k_value(j) < value as int);
                }
            }
        }
        Self { current: (offset, index as usize), stop_after: end }
    }

    /// Yields the current candidate and advances to the next coprime-30
    /// integer, or yields nothing once the candidate passes the stop value.
    pub fn next(&mut self) -> (r: Option<u64>)
        requires
            old(self).wf(),
        ensures
            final(self).wf(),
            final(self).stop() == old(self).stop(),
            match r {
                None => *final(self) == *old(self) && old(self).cur() > old(self).stop(),
                Some(v) => v as int == old(self).cur() && old(self).cur() <= old(self).stop()
                    && final(self).cur() > old(self).cur() && coprime30(final(self).cur()) && (
                forall|m: int| old(self).cur() < m < final(self).cur() ==> !coprime30(m)),
            },
    {
        let (offset, index) = self.current;
        if let Some(base) = offset.checked_mul(30) {
            let k = k_value_at(index as u8);
            if let Some(current_value) = base.checked_add(k as u64) {
                proof {
                    lemma_mod30_window(offset as int, k_value(index as int));
                }
                if current_value > self.stop_after {
                    return None;
                }
                if index < 7 {
                    self.current = (offset, index + 1);
                } else {
                    self.current = (offset + 1, 0);
                }
                proof {
                    let a = offset as int;
                    let oldc = 30 * a + k_value(index as int);
                    let newc = self.cur();
                    assert forall|m: int| oldc < m < newc implies !coprime30(m) by {
                        if index < 7 {
                            let w = m - 30 * a;
                            lemma_mod30_window(a, w);
                        } else {
                            // the only value between 30a + 29 and 30(a+1) + 1
                            // is the multiple of 30 itself
                            assert(m == 30 * (a + 1));
                            lemma_mod30_window(a + 1, 0);
                        }
                    }
                    lemma_mod30_window(
                        self.current.0 as int,
                        k_value(self.current.1 as int),
                    );
                }
                return Some(current_value);
            }
        }
        proof {
            // the candidate itself exceeds every representable stop value
            let a = offset as int;
            assert(30 * a + k_value(index as int) > u64::MAX as int);
        }
        None
    }
}

/// The least index whose k-value is at least `v`, for `v` at most 29.
fn k_index_ge(v: u8) -> (r: u8)
    requires
        v <= 29,
    ensures
        r < 8,
        k_value(r as int) >= v as int,
        forall|j: int| 0 <= j < r as int ==> k_value(j) < v as int,
{
    if v <= 1 {
        0
    } else if v <= 7 {
        1
    } else if v <= 11 {
        2
    } else if v <= 13 {
        3
    } else if v <= 17 {
        4
    } else if v <= 19 {
        5
    } else if v <= 23 {
        6
    } else {
        7
    }
}

} // verus!
