//! Small helpers shared across the crate: arithmetic traits on the integer
//! type the stores work with, and range containment for inclusive ranges.

use vstd::prelude::*;

pub mod arithmetic;

verus! {

/// Relies on `core::ops::RangeInclusive::start`: it returns a reference to
/// the range's lower bound, whether or not the range has been iterated.
pub assume_specification<Idx>[ core::ops::RangeInclusive::<Idx>::start ](
    r: &core::ops::RangeInclusive<Idx>,
) -> (ret: &Idx)
    ensures
        *ret == r@.start,
;

/// Relies on `core::ops::RangeInclusive::end`: it returns a reference to
/// the range's upper bound, whether or not the range has been iterated.
pub assume_specification<Idx>[ core::ops::RangeInclusive::<Idx>::end ](
    r: &core::ops::RangeInclusive<Idx>,
) -> (ret: &Idx)
    ensures
        *ret == r@.end,
;

/// Relies on `core::ops::RangeInclusive::into_inner`: it destructures the
/// range into its lower and upper bound.
pub assume_specification<Idx>[ core::ops::RangeInclusive::<Idx>::into_inner ](
    r: core::ops::RangeInclusive<Idx>,
) -> (ret: (Idx, Idx))
    ensures
        ret.0 == r@.start,
        ret.1 == r@.end,
;

/// Containment of one inclusive range in another, reporting what is missing.
pub trait ContainsRange {
    /// What a failed containment check reports: the missing part.
    type RangeDifference;

    /// The lower bound, as a mathematical integer.
    spec fn lo(&self) -> int;

    /// The upper bound, as a mathematical integer.
    spec fn hi(&self) -> int;

    /// What the reported difference means: `d` is the sub-range of `range`
    /// that falls outside `self`.
    spec fn is_missing_part(&self, range: &Self, d: &Self::RangeDifference) -> bool;

    /// Checks that `range` lies between this range's bounds, and reports a
    /// missing sub-range otherwise (the low side first).
    fn contains_range(&self, range: &Self) -> (r: Result<(), Self::RangeDifference>)
        ensures
            r is Ok <==> self.lo() <= range.lo() && range.hi() <= self.hi(),
            match r {
                Ok(()) => true,
                Err(d) => self.is_missing_part(range, &d),
            },
    ;

    /// Destructures the range into `(start, end)`.
    fn bounds(&self) -> (r: (u64, u64))
        ensures
            r.0 as int == self.lo(),
            r.1 as int == self.hi(),
    ;
}

impl ContainsRange for core::ops::RangeInclusive<u64> {
    type RangeDifference = core::ops::RangeInclusive<u64>;

    open spec fn lo(&self) -> int {
        self@.start as int
    }

    open spec fn hi(&self) -> int {
        self@.end as int
    }

    open spec fn is_missing_part(
        &self,
        range: &core::ops::RangeInclusive<u64>,
        d: &core::ops::RangeInclusive<u64>,
    ) -> bool {
        if self.lo() > range.lo() {
            d@.start as int == range.lo() && d@.end as int == self.lo() - 1
        } else {
            range.hi() > self.hi() && d@.start as int == self.hi() + 1 && d@.end as int
                == range.hi()
        }
    }

    fn contains_range(
        &self,
        range: &core::ops::RangeInclusive<u64>,
    ) -> (r: Result<(), core::ops::RangeInclusive<u64>>) {
        let self_start: u64 = *self.start();
        let self_end: u64 = *self.end();
        let other_start: u64 = *range.start();
        let other_end: u64 = *range.end();
        if self_start > other_start {
            return Err(core::ops::RangeInclusive::new(other_start, self_start - 1));
        }
        if other_end > self_end {
            return Err(core::ops::RangeInclusive::new(self_end + 1, other_end));
        }
        Ok(())
    }

    fn bounds(&self) -> (r: (u64, u64)) {
        (*self.start(), *self.end())
    }
}

/// Retrieves the value out of a `Result` whose two sides carry the same type.
pub fn unwrap_any<T>(result: Result<T, T>) -> (r: T)
    ensures
        match result {
            Ok(t) => r == t,
            Err(t) => r == t,
        },
{
    match result {
        Ok(something) => something,
        Err(something) => something,
    }
}

} // verus!
