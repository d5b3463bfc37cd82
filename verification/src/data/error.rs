//! Error Handling
//!
//! Every fallible operation of the crate reports one of two error kinds,
//! together with the context (which action, on which component) it arose in.

use vstd::prelude::*;

verus! {

/// Result abstraction for public methods that return some result
pub type PrimeResult<T> = Result<T, PrimeError>;

/// This Error Struct is what will be returned with every function in this
/// crate that yields an error
#[derive(Debug)]
pub struct PrimeError {
    /// Where the error arose.
    pub context: ErrorContext,
    /// What went wrong.
    pub error: ErrorType,
}

/// * **NotEnoughData** - This error happens when someone tries to access some
///   range of numbers that the prime store does not have information about.
///   The range it carries is the difference between the range given and the
///   store's range.
///
/// * **OutOfBounds** - Same concept, except it doesn't need to be some range:
///   a single queried value (or index) falls outside any valid interpretation.
#[derive(Debug)]
pub enum ErrorType {
    /// The store lacks coverage of the carried inclusive sub-range.
    NotEnoughData(core::ops::RangeInclusive<u64>),
    /// The carried value itself is invalid or unrepresented.
    OutOfBounds(u64),
}

/// Some errors can happen in more than one context, such as trying to access
/// some number outside of a range.  This gives better context to what
/// happened.
#[derive(Debug)]
pub struct ErrorContext {
    /// What was being done.
    pub action: ErrorAction,
    /// On which component.
    pub source: ErrorSource,
}

/// The action during which an error arose.
#[derive(Debug)]
pub enum ErrorAction {
    /// A read-only query.
    Reading,
    /// A mutation of stored bits.
    Modifying,
    /// Construction of new data.
    Generating,
}

/// The component an error arose in.
#[derive(Debug)]
pub enum ErrorSource {
    /// The compressed block.
    PrimeByte,
    /// The prime store.
    PrimeData,
}

impl PrimeError {
    /// The error reports that data over exactly `[lo, hi]` is missing.
    pub open spec fn says_missing(&self, lo: int, hi: int) -> bool {
        match self.error {
            ErrorType::NotEnoughData(r) => r@.start as int == lo && r@.end as int == hi,
            ErrorType::OutOfBounds(_) => false,
        }
    }

    /// The error reports that the single value `x` is out of bounds.
    pub open spec fn says_out_of_bounds(&self, x: int) -> bool {
        match self.error {
            ErrorType::NotEnoughData(_) => false,
            ErrorType::OutOfBounds(v) => v as int == x,
        }
    }

    /// Builds a missing-data error for the uncovered range `[lo, hi]`.
    pub fn not_enough_data(action: ErrorAction, lo: u64, hi: u64) -> (r: Self)
        ensures
            r.says_missing(lo as int, hi as int),
    {
        PrimeError {
            context: ErrorContext { action, source: ErrorSource::PrimeData },
            error: ErrorType::NotEnoughData(core::ops::RangeInclusive::new(lo, hi)),
        }
    }

    /// Builds an out-of-bounds error for the value `x`.
    pub fn out_of_bounds(action: ErrorAction, x: u64) -> (r: Self)
        ensures
            r.says_out_of_bounds(x as int),
    {
        PrimeError {
            context: ErrorContext { action, source: ErrorSource::PrimeData },
            error: ErrorType::OutOfBounds(x),
        }
    }
}

} // verus!
