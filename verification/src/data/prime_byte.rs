//! The compressed prime block: one byte whose eight bits record primality of
//! the eight coprime-30 residues inside one window of thirty integers.

use vstd::prelude::*;

verus! {

use crate::theory::{is_k_value, k_value, k_index};

/// The bit of `b` at position `i`, counted from the most significant bit.
pub open spec fn u8_bit(b: u8, i: int) -> bool {
    if i == 0 {
        b & 0x80 == 0x80
    } else if i == 1 {
        b & 0x40 == 0x40
    } else if i == 2 {
        b & 0x20 == 0x20
    } else if i == 3 {
        b & 0x10 == 0x10
    } else if i == 4 {
        b & 0x08 == 0x08
    } else if i == 5 {
        b & 0x04 == 0x04
    } else if i == 6 {
        b & 0x02 == 0x02
    } else if i == 7 {
        b & 0x01 == 0x01
    } else {
        false
    }
}

/// A "byte of primes", a chunk of 8 bits corresponding to the 8 values in the
/// (0..30) range that are not divisible by 2, 3, or 5.  Those values are also
/// called **k-values**; bit position `i` (from the most significant bit)
/// corresponds to the i-th k-value in ascending order.
#[derive(Clone, Copy, PartialEq, Eq, Structural, Debug)]
pub struct PrimeByte {
    byte: u8,
}

impl PrimeByte {
    /// The raw bits, as a spec-level value.
    pub closed spec fn bits(self) -> u8 {
        self.byte
    }

    /// Whether the k-value `k` is currently believed prime: `k` must be one
    /// of the eight coprime-30 residues and its bit must be set.
    pub open spec fn marked(self, k: int) -> bool {
        is_k_value(k) && u8_bit(self.bits(), k_index(k))
    }

    /// How many k-values in `[kl, kh]` are currently believed prime.
    pub open spec fn count_marked_between(self, kl: int, kh: int) -> nat
        decreases kh - kl + 1,
    {
        if kl > kh {
            0
        } else {
            self.count_marked_between(kl, kh - 1) + if self.marked(kh) {
                1nat
            } else {
                0nat
            }
        }
    }

    /// Creates a new byte, setting all k-values as prime
    pub fn new() -> (r: Self)
        ensures
            forall|k: int| r.marked(k) == is_k_value(k),
    {
        let r = Self { byte: 255 };
        proof {
            assert(255u8 & 0x80 == 0x80 && 255u8 & 0x40 == 0x40 && 255u8 & 0x20 == 0x20 && 255u8
                & 0x10 == 0x10 && 255u8 & 0x08 == 0x08 && 255u8 & 0x04 == 0x04 && 255u8 & 0x02
                == 0x02 && 255u8 & 0x01 == 0x01) by (bit_vector);
        }
        r
    }

    /// The bit at position `i` from the most significant bit.
    fn test_bit(&self, i: u8) -> (r: bool)
        requires
            i < 8,
        ensures
            r == u8_bit(self.bits(), i as int),
    {
        match i {
            0 => self.byte & 0x80 == 0x80,
            1 => self.byte & 0x40 == 0x40,
            2 => self.byte & 0x20 == 0x20,
            3 => self.byte & 0x10 == 0x10,
            4 => self.byte & 0x08 == 0x08,
            5 => self.byte & 0x04 == 0x04,
            6 => self.byte & 0x02 == 0x02,
            _ => self.byte & 0x01 == 0x01,
        }
    }

    /// Sets one of the bits to non-prime/composite based on the k-value
    ///
    /// If the given value is not a k-value, returns an error.
    /// If the bit was already set to non-prime, returns false.
    /// Otherwise, returns true.
    pub fn set_nonprime(&mut self, k_value: u8) -> (r: Result<bool, ()>)
        ensures
            match r {
                Ok(changed) => is_k_value(k_value as int) && changed == old(self).marked(
                    k_value as int,
                ) && forall|k: int|
                    (#[trigger] final(self).marked(k)) == (old(self).marked(k) && k != k_value as int),
                Err(()) => !is_k_value(k_value as int) && *final(self) == *old(self),
            },
    {
        if let Some(index) = k_index_of(k_value) {
            let is_prime = self.test_bit(index);
            if is_prime {
                let b = self.byte;
                let nb = clear_bit(b, index);
                self.byte = nb;
                proof {
                    lemma_k_index_inverse();
                }
                Ok(true)
            } else {
                Ok(false)
            }
        } else {
            Err(())
        }
    }

    /// Vefifies if the given `x` is prime, based on the k-values
    ///
    /// **Warning**: It will return false for 2, 3, and 5. So take care of those cases
    /// before you call this function.
    ///
    /// **Second Warning**: Will return false for values above 29. So always make sure to
    /// apply modulo 30 when calling this function.
    pub fn is_prime(&self, x: u8) -> (r: bool)
        ensures
            r == self.marked(x as int),
    {
        if let Some(index) = k_index_of(x) {
            self.test_bit(index)
        } else {
            false
        }
    }

    /// Converts the bits into boolean entries
    pub fn as_boolean_array(&self) -> (r: [bool; 8])
        ensures
            forall|i: int| 0 <= i < 8 ==> r[i] == u8_bit(self.bits(), i),
    {
        [
            self.test_bit(0),
            self.test_bit(1),
            self.test_bit(2),
            self.test_bit(3),
            self.test_bit(4),
            self.test_bit(5),
            self.test_bit(6),
            self.test_bit(7),
        ]
    }

    /// Counts the number of primes (a.k.a the number of ones) it has.
    pub fn count_primes(&self) -> (r: u64)
        ensures
            r == self.count_marked_between(0, 29),
    {
        self.count_in_bounds(0, 29)
    }

    /// Counts the number of primes it has as long as their k-values fall
    /// within the range
    pub fn count_primes_in_range(&self, range: core::ops::RangeInclusive<u8>) -> (r: u64)
        ensures
            r == self.count_marked_between(range@.start as int, range@.end as int),
    {
        let (lo, hi) = range.into_inner();
        if hi <= 29 {
            self.count_in_bounds(lo, hi)
        } else {
            let r = self.count_in_bounds(lo, 29);
            proof {
                self.lemma_count_marked_cap(lo as int, hi as int);
            }
            r
        }
    }

    /// Counts the set bits whose k-values lie in `[lo, hi]`, for `hi <= 29`.
    fn count_in_bounds(&self, lo: u8, hi: u8) -> (r: u64)
        requires
            hi <= 29,
        ensures
            r == self.count_marked_between(lo as int, hi as int),
    {
        let mut count: u64 = 0;
        let mut k: u8 = lo;
        if lo > hi {
            return 0;
        }
        while k <= hi
            invariant
                lo <= k <= hi + 1,
                hi <= 29,
                count == self.count_marked_between(lo as int, k - 1),
                count <= k,
            decreases hi + 1 - k,
        {
            if self.is_prime(k) {
                count = count + 1;
            }
            k = k + 1;
        }
        count
    }

    /// Compares two bytes to see if their bits match in the given k-value range
    ///
    /// If no k-value falls in the range, the bytes trivially match.
    pub fn matches_in_range(&self, other: PrimeByte, range: core::ops::RangeInclusive<u8>) -> (r:
        bool)
        ensures
            r == forall|k: int|
                is_k_value(k) && range@.start as int <= k <= range@.end as int ==> self.marked(k)
                    == other.marked(k),
    {
        let (lo, hi) = range.into_inner();
        let mut matches: bool = true;
        let mut i: u8 = 0;
        while i < 8
            invariant
                i <= 8,
                matches == forall|k: int|
                    is_k_value(k) && lo as int <= k <= hi as int && k_index(k) < i as int
                        ==> self.marked(k) == other.marked(k),
            decreases 8 - i,
        {
            let k = k_value_at(i);
            if lo <= k && k <= hi {
                if self.test_bit(i) != other.test_bit(i) {
                    matches = false;
                }
            }
            proof {
                lemma_k_index_inverse();
            }
            i = i + 1;
        }
        matches
    }

    /// Overwrites the bits in this byte with the bits in the other byte, from
    /// a given position
    ///
    /// The position should be a bit index in the range (0..=7), 0 meaning the
    /// entire byte is overwritten with the given one.
    pub fn overwrite_at(&mut self, overwriting: Self, position: u8)
        requires
            position <= 7,
        ensures
            forall|i: int|
                0 <= i < 8 ==> u8_bit(final(self).bits(), i) == if i >= position as int {
                    u8_bit(overwriting.bits(), i)
                } else {
                    u8_bit(old(self).bits(), i)
                },
    {
        if position == 0 {
            self.byte = overwriting.byte;
        } else {
            let b = self.byte;
            let o = overwriting.byte;
            let p = position;
            let clear_byte = (b >> (8 - p) as u8) << (8 - p) as u8;
            let new_bits = (o << p) >> p;
            proof {
                assert(clear_byte as int + new_bits as int <= 255) by (bit_vector)
                    requires
                        clear_byte == (b >> (8 - p) as u8) << (8 - p) as u8,
                        new_bits == (o << p) >> p,
                        0 < p < 8,
                ;
                let nb = (clear_byte + new_bits) as u8;
                assert((nb & 0x80 == 0x80) == (if p
                    <= 0 { o & 0x80 == 0x80 } else { b & 0x80 == 0x80 }) && (nb & 0x40 == 0x40)
                    == (if p <= 1 { o & 0x40 == 0x40 } else { b & 0x40 == 0x40 }) && (nb & 0x20
                    == 0x20) == (if p <= 2 { o & 0x20 == 0x20 } else { b & 0x20 == 0x20 }) && (nb
                    & 0x10 == 0x10) == (if p <= 3 { o & 0x10 == 0x10 } else { b & 0x10 == 0x10 })
                    && (nb & 0x08 == 0x08) == (if p <= 4 { o & 0x08 == 0x08 } else { b & 0x08
                    == 0x08 }) && (nb & 0x04 == 0x04) == (if p <= 5 { o & 0x04 == 0x04 } else { b
                    & 0x04 == 0x04 }) && (nb & 0x02 == 0x02) == (if p <= 6 { o & 0x02 == 0x02 }
                    else { b & 0x02 == 0x02 }) && (nb & 0x01 == 0x01) == (if p <= 7 { o & 0x01
                    == 0x01 } else { b & 0x01 == 0x01 })) by (bit_vector)
                    requires
                        nb == clear_byte + new_bits,
                        clear_byte == (b >> (8 - p) as u8) << (8 - p) as u8,
                        new_bits == (o << p) >> p,
                        0 < p < 8,
                ;
            }
            self.byte = clear_byte + new_bits;
        }
    }

    /// Retrieves all bits set to one and converts them into their respective
    /// k-values
    pub fn as_k_values(&self) -> (r: Vec<u8>)
        ensures
            forall|j: int|
                0 <= j < r@.len() ==> self.marked(#[trigger] r@[j] as int),
            forall|k: int| is_k_value(k) && self.marked(k) ==> r@.contains(k as u8),
            forall|j1: int, j2: int| 0 <= j1 < j2 < r@.len() ==> r@[j1] < r@[j2],
    {
        self.as_k_values_in_range(core::ops::RangeInclusive::new(0, 29))
    }

    /// Retrieves all bits set to one and converts them into their respective
    /// k-values, as long as they fall inside the inclusive range
    pub fn as_k_values_in_range(&self, range: core::ops::RangeInclusive<u8>) -> (r: Vec<u8>)
        ensures
            forall|j: int|
                0 <= j < r@.len() ==> self.marked(#[trigger] r@[j] as int) && range@.start <= r@[j]
                    <= range@.end,
            forall|k: int|
                is_k_value(k) && self.marked(k) && range@.start as int <= k <= range@.end as int
                    ==> r@.contains(k as u8),
            forall|j1: int, j2: int| 0 <= j1 < j2 < r@.len() ==> r@[j1] < r@[j2],
    {
        let (lo, hi) = range.into_inner();
        let mut r: Vec<u8> = Vec::new();
        let mut i: u8 = 0;
        while i < 8
            invariant
                i <= 8,
                forall|j: int|
                    0 <= j < r@.len() ==> self.marked(#[trigger] r@[j] as int) && lo <= r@[j] <= hi
                        && k_index(r@[j] as int) < i as int,
                forall|k: int|
                    is_k_value(k) && self.marked(k) && lo as int <= k <= hi as int && k_index(k)
                        < i as int ==> r@.contains(k as u8),
                forall|j1: int, j2: int| 0 <= j1 < j2 < r@.len() ==> r@[j1] < r@[j2],
            decreases 8 - i,
        {
            let k = k_value_at(i);
            proof {
                lemma_k_index_inverse();
                lemma_k_value_increasing();
            }
            let ghost prev = r@;
            if lo <= k && k <= hi && self.test_bit(i) {
                r.push(k);
            }
            proof {
                assert forall|k2: int|
                    is_k_value(k2) && self.marked(k2) && lo as int <= k2 <= hi as int && k_index(
                        k2,
                    ) < i as int + 1 implies r@.contains(k2 as u8) by {
                    if k_index(k2) < i as int {
                        let j = choose|j: int| 0 <= j < prev.len() && prev[j] == k2 as u8;
                        assert(r@[j] == k2 as u8);
                    } else {
                        assert(k2 == k_value(i as int));
                        assert(r@[r@.len() - 1] == k2 as u8);
                    }
                }
            }
            i = i + 1;
        }
        r
    }

    /// Retrieves the k-values and converts them to actual prime numbers:
    /// each set bit at k-value `k` becomes `30 * offset + k`.
    pub fn as_primes(&self, offset: u64) -> (r: Vec<u64>)
        requires
            30 * offset as int + 29 <= u64::MAX,
        ensures
            forall|j: int|
                0 <= j < r@.len() ==> self.marked(#[trigger] r@[j] as int - 30 * offset as int),
            forall|k: int|
                is_k_value(k) && self.marked(k) ==> r@.contains((30 * offset + k as u64) as u64),
            forall|j1: int, j2: int| 0 <= j1 < j2 < r@.len() ==> r@[j1] < r@[j2],
    {
        self.as_primes_in_range(offset, core::ops::RangeInclusive::new(0, 29))
    }

    /// Retrieves the k-values, as long as they fall inside the inclusive
    /// range, and converts them to actual prime numbers
    pub fn as_primes_in_range(&self, offset: u64, range: core::ops::RangeInclusive<u8>) -> (r: Vec<
        u64,
    >)
        requires
            30 * offset as int + 29 <= u64::MAX,
        ensures
            forall|j: int|
                0 <= j < r@.len() ==> self.marked(#[trigger] r@[j] as int - 30 * offset as int)
                    && range@.start as int <= r@[j] as int - 30 * offset as int <= range@.end as int,
            forall|k: int|
                is_k_value(k) && self.marked(k) && range@.start as int <= k <= range@.end as int
                    ==> r@.contains((30 * offset + k as u64) as u64),
            forall|j1: int, j2: int| 0 <= j1 < j2 < r@.len() ==> r@[j1] < r@[j2],
    {
        let ks = self.as_k_values_in_range(range);
        let mut r: Vec<u64> = Vec::new();
        let mut idx: usize = 0;
        while idx < ks.len()
            invariant
                idx <= ks@.len(),
                30 * offset as int + 29 <= u64::MAX,
                forall|j: int|
                    0 <= j < ks@.len() ==> self.marked(#[trigger] ks@[j] as int) && ks@[j] <= 29,
                r@.len() == idx,
                forall|j: int| 0 <= j < idx ==> r@[j] == 30 * offset as int + ks@[j] as int,
            decreases ks@.len() - idx,
        {
            let k = ks[idx];
            r.push(30 * offset + k as u64);
            idx = idx + 1;
        }
        proof {
            assert forall|k: int|
                is_k_value(k) && self.marked(k) && range@.start as int <= k <= range@.end as int
                    implies r@.contains((30 * offset + k as u64) as u64) by {
                assert(ks@.contains(k as u8));
                let j = choose|j: int| 0 <= j < ks@.len() && ks@[j] == k as u8;
                assert(r@[j] == 30 * offset as int + k);
            }
        }
        r
    }

    /// Converts byte into a u8
    pub fn as_u8(&self) -> (r: u8)
        ensures
            r == self.bits(),
    {
        self.byte
    }

    /// Wraps a raw byte of bits.
    pub fn from_u8(byte: u8) -> (r: Self)
        ensures
            r.bits() == byte,
    {
        Self { byte }
    }

    /// Counting stops at 29: no k-value is larger.
    proof fn lemma_count_marked_cap(self, kl: int, kh: int)
        requires
            kh >= 29,
        ensures
            self.count_marked_between(kl, kh) == self.count_marked_between(kl, 29),
        decreases kh,
    {
        if kh > 29 {
            self.lemma_count_marked_cap(kl, kh - 1);
        }
    }
}

impl From<u8> for PrimeByte {
    /// Wraps a raw byte of bits.
    fn from(byte: u8) -> (r: PrimeByte) {
        PrimeByte::from_u8(byte)
    }
}

impl vstd::std_specs::convert::FromSpecImpl<u8> for PrimeByte {
    closed spec fn obeys_from_spec() -> bool {
        false
    }

    closed spec fn from_spec(byte: u8) -> PrimeByte {
        PrimeByte { byte }
    }
}

impl From<PrimeByte> for u8 {
    /// Unwraps the raw bits.
    fn from(byte: PrimeByte) -> (r: u8) {
        byte.as_u8()
    }
}

impl vstd::std_specs::convert::FromSpecImpl<PrimeByte> for u8 {
    open spec fn obeys_from_spec() -> bool {
        false
    }

    open spec fn from_spec(byte: PrimeByte) -> u8 {
        byte.bits()
    }
}

/// The k-value at index `i` of the ascending list of the eight k-values.
pub(crate) fn k_value_at(i: u8) -> (r: u8)
    requires
        i < 8,
    ensures
        r as int == k_value(i as int),
        r <= 29,
{
    match i {
        0 => 1,
        1 => 7,
        2 => 11,
        3 => 13,
        4 => 17,
        5 => 19,
        6 => 23,
        _ => 29,
    }
}

/// The index of `k` among the k-values, or `None` if `k` is not a k-value.
fn k_index_of(k: u8) -> (r: Option<u8>)
    ensures
        match r {
            Some(i) => i < 8 && is_k_value(k as int) && k_index(k as int) == i as int,
            None => !is_k_value(k as int),
        },
{
    match k {
        1 => Some(0),
        7 => Some(1),
        11 => Some(2),
        13 => Some(3),
        17 => Some(4),
        19 => Some(5),
        23 => Some(6),
        29 => Some(7),
        _ => None,
    }
}

/// `k_index` inverts `k_value`, and distinct k-values have distinct indices.
pub proof fn lemma_k_index_inverse()
    ensures
        forall|i: int| 0 <= i < 8 ==> is_k_value(#[trigger] k_value(i)),
        forall|i: int| 0 <= i < 8 ==> k_index(#[trigger] k_value(i)) == i,
        forall|k: int| is_k_value(k) ==> k_value(#[trigger] k_index(k)) == k,
        forall|k: int| is_k_value(k) ==> 0 <= #[trigger] k_index(k) < 8,
{
}

/// `k_value` is strictly increasing on indices 0 through 7.
pub proof fn lemma_k_value_increasing()
    ensures
        forall|i1: int, i2: int| 0 <= i1 < i2 < 8 ==> k_value(i1) < k_value(i2),
{
}

/// Clears the bit of `b` at position `i` from the most significant bit.
fn clear_bit(b: u8, i: u8) -> (r: u8)
    requires
        i < 8,
        u8_bit(b, i as int),
    ensures
        forall|j: int| 0 <= j < 8 ==> u8_bit(r, j) == (u8_bit(b, j) && j != i as int),
{
    let mask = match i {
        0 => 0x80,
        1 => 0x40,
        2 => 0x20,
        3 => 0x10,
        4 => 0x08,
        5 => 0x04,
        6 => 0x02,
        _ => 0x01,
    };
    proof {
        let nb = (b - mask) as u8;
        assert(mask <= b && (nb & 0x80 == 0x80) == (b & 0x80 == 0x80 && mask != 0x80) && (nb
            & 0x40 == 0x40) == (b & 0x40 == 0x40 && mask != 0x40) && (nb & 0x20 == 0x20) == (b
            & 0x20 == 0x20 && mask != 0x20) && (nb & 0x10 == 0x10) == (b & 0x10 == 0x10 && mask
            != 0x10) && (nb & 0x08 == 0x08) == (b & 0x08 == 0x08 && mask != 0x08) && (nb & 0x04
            == 0x04) == (b & 0x04 == 0x04 && mask != 0x04) && (nb & 0x02 == 0x02) == (b & 0x02
            == 0x02 && mask != 0x02) && (nb & 0x01 == 0x01) == (b & 0x01 == 0x01 && mask != 0x01))
            by (bit_vector)
            requires
                nb == (b - mask) as u8,
                b & mask == mask,
                mask == 0x80u8 || mask == 0x40u8 || mask == 0x20u8 || mask == 0x10u8 || mask
                    == 0x08u8 || mask == 0x04u8 || mask == 0x02u8 || mask == 0x01u8,
        ;
        assert(b & mask == mask);
        assert forall|j: int| 0 <= j < 8 implies u8_bit(nb, j) == (u8_bit(b, j) && j != i as int)
        by {
        }
    }
    b - mask
}

} // verus!
