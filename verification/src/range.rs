//! Bit ranges and the range normalizer: a range expression, bounded on
//! either side or on neither, resolves against a buffer's total bit length
//! into a concrete half-open interval of bit indices.

use vstd::prelude::*;

verus! {

/// One end of a bit range: the bound includes its index, excludes it, or is
/// absent, in which case the buffer's edge is used.
#[derive(Clone, Copy, Debug, PartialEq, Eq, Structural)]
pub enum BitBound {
    Included(usize),
    Excluded(usize),
    Unbounded,
}

/// A span of bit indices identifying one field. Out-of-bounds or empty
/// resolved ranges are contract violations, never silently clamped.
#[derive(Clone, Copy, Debug, PartialEq, Eq, Structural)]
pub struct BitRange {
    pub start: BitBound,
    pub end: BitBound,
}

impl BitRange {
    /// The first included bit index.
    pub open spec fn start_bit(self) -> int {
        match self.start {
            BitBound::Included(i) => i as int,
            BitBound::Excluded(i) => i as int + 1,
            BitBound::Unbounded => 0,
        }
    }

    /// One past the last included bit index; an absent bound resolves to the
    /// buffer's total bit length.
    pub open spec fn end_bit(self, total_bits: int) -> int {
        match self.end {
            BitBound::Included(i) => i as int + 1,
            BitBound::Excluded(i) => i as int,
            BitBound::Unbounded => total_bits,
        }
    }

    /// The resolved interval is non-empty and lies inside the buffer.
    pub open spec fn valid(self, total_bits: int) -> bool {
        0 <= self.start_bit() < self.end_bit(total_bits) <= total_bits
    }

    /// The number of bits the range covers.
    pub open spec fn width(self, total_bits: int) -> int {
        self.end_bit(total_bits) - self.start_bit()
    }

    /// The half-open range `[start, end)`.
    pub fn new(start: usize, end: usize) -> (r: BitRange)
        ensures
            r == (BitRange { start: BitBound::Included(start), end: BitBound::Excluded(end) }),
    {
        BitRange { start: BitBound::Included(start), end: BitBound::Excluded(end) }
    }

    /// The inclusive range `[start, end]`.
    pub fn inclusive(start: usize, end: usize) -> (r: BitRange)
        ensures
            r == (BitRange { start: BitBound::Included(start), end: BitBound::Included(end) }),
    {
        BitRange { start: BitBound::Included(start), end: BitBound::Included(end) }
    }

    /// The unbounded range covering the whole buffer.
    pub fn full() -> (r: BitRange)
        ensures
            r == (BitRange { start: BitBound::Unbounded, end: BitBound::Unbounded }),
    {
        BitRange { start: BitBound::Unbounded, end: BitBound::Unbounded }
    }

    /// Resolve the range against a buffer of `total_bits` bits into the
    /// concrete interval `[start, end)`.
    pub fn normalize(self, total_bits: usize) -> (r: (usize, usize))
        requires
            self.valid(total_bits as int),
        ensures
            r.0 as int == self.start_bit(),
            r.1 as int == self.end_bit(total_bits as int),
    {
        let start: usize = match self.start {
            BitBound::Included(i) => i,
            BitBound::Excluded(i) => i + 1,
            BitBound::Unbounded => 0,
        };
        let end: usize = match self.end {
            BitBound::Included(i) => i + 1,
            BitBound::Excluded(i) => i,
            BitBound::Unbounded => total_bits,
        };
        (start, end)
    }

    /// Resolve the range, or report that it cannot be: `None` exactly when
    /// the resolved interval would be empty or reach outside the buffer.
    pub fn try_normalize(self, total_bits: usize) -> (r: Option<(usize, usize)>)
        ensures
            match r {
                Some(p) => self.valid(total_bits as int) && p.0 as int == self.start_bit()
                    && p.1 as int == self.end_bit(total_bits as int),
                None => !self.valid(total_bits as int),
            },
    {
        let start: usize = match self.start {
            BitBound::Included(i) => i,
            BitBound::Excluded(i) => {
                if i < total_bits {
                    i + 1
                } else {
                    return None;
                }
            },
            BitBound::Unbounded => 0,
        };
        let end: usize = match self.end {
            BitBound::Included(i) => {
                if i < total_bits {
                    i + 1
                } else {
                    return None;
                }
            },
            BitBound::Excluded(i) => i,
            BitBound::Unbounded => total_bits,
        };
        if start < end && end <= total_bits {
            Some((start, end))
        } else {
            None
        }
    }
}

} // verus!
