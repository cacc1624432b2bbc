//! Single-precision numbers, held by their bit patterns.
//!
//! The cache orders scales, offsets and tolerances, compares them and hands them
//! back. All of that can be read off the bit pattern, so a [`Single`] is what the
//! cache keeps of a number. For subtracting, dividing and adding numbers it uses
//! operations that it is given.

use vstd::prelude::*;

verus! {

/// An IEEE 754 single-precision number, by its bit pattern.
///
/// `==` compares the patterns; [`Single::less_than`] compares the numbers.
#[derive(Clone, Copy, Debug, PartialEq, Eq, Structural)]
pub struct Single {
    /// Sign, exponent and fraction, from the highest bit down.
    pub bits: u32,
}

/// The pattern of the single nearest 0.001, the smallest tolerance that a cache
/// works with.
pub const SMALLEST_TOLERANCE: u32 = 0x3a83_126f;

/// The pattern of the single nearest 0.1, the tolerance of a default cache.
pub const DEFAULT_TOLERANCE: u32 = 0x3dcc_cccd;

/// The pattern of 0.5.
pub const HALF: u32 = 0x3f00_0000;

/// The pattern of -0.5.
pub const MINUS_HALF: u32 = 0xbf00_0000;

/// The pattern of 1.
pub const ONE: u32 = 0x3f80_0000;

impl Single {
    /// Whether the pattern is that of a NaN: all exponent bits are set and so is
    /// some fraction bit.
    pub open spec fn is_nan_spec(self) -> bool {
        self.bits % 0x8000_0000 > 0x7f80_0000
    }

    /// The place of the number in the total order of singles.
    ///
    /// Both zeros stand at 0, numbers of equal size and opposite sign stand
    /// opposite each other, and every NaN stands above infinity.
    pub open spec fn ordinal_spec(self) -> int {
        if self.is_nan_spec() {
            0x7f80_0001
        } else if self.bits < 0x8000_0000 {
            self.bits as int
        } else {
            0x8000_0000 - self.bits
        }
    }

    /// Whether the number is greater than zero. No NaN is.
    pub open spec fn is_positive_spec(self) -> bool {
        0 < self.bits <= 0x7f80_0000
    }

    /// Whether the first number is less than the second. A NaN is neither less
    /// nor greater than anything.
    pub open spec fn less_than_spec(self, other: Single) -> bool {
        &&& !self.is_nan_spec()
        &&& !other.is_nan_spec()
        &&& self.ordinal_spec() < other.ordinal_spec()
    }

    /// Whether the number is neither infinite nor a NaN.
    pub open spec fn is_finite_spec(self) -> bool {
        self.bits % 0x8000_0000 < 0x7f80_0000
    }

    /// Whether the size of the number is finite and not above a tolerance. Nothing is
    /// within a NaN.
    pub open spec fn is_within_spec(self, tolerance: Single) -> bool {
        &&& self.is_finite_spec()
        &&& !tolerance.is_nan_spec()
        &&& self.abs_spec().ordinal_spec() <= tolerance.ordinal_spec()
    }

    /// The larger of two numbers.
    pub open spec fn max_spec(self, other: Single) -> Single {
        if self.less_than_spec(other) {
            other
        } else {
            self
        }
    }

    /// The number without its sign.
    pub open spec fn abs_spec(self) -> Single {
        Single { bits: self.bits % 0x8000_0000 }
    }

    /// The number without its sign.
    pub fn abs(self) -> (size: Single)
        ensures
            size == self.abs_spec(),
    {
        Single { bits: self.bits % 0x8000_0000 }
    }

    /// Whether the number is a NaN.
    pub fn is_nan(self) -> (nan: bool)
        ensures
            nan == self.is_nan_spec(),
    {
        self.bits % 0x8000_0000 > 0x7f80_0000
    }

    /// Whether the number is greater than zero.
    pub fn is_positive(self) -> (positive: bool)
        ensures
            positive == self.is_positive_spec(),
    {
        0 < self.bits && self.bits <= 0x7f80_0000
    }

    /// The place of the number in the total order of singles.
    pub fn ordinal(self) -> (place: i64)
        ensures
            place == self.ordinal_spec(),
            -0x7f80_0000 <= place <= 0x7f80_0001,
    {
        if self.is_nan() {
            0x7f80_0001
        } else if self.bits < 0x8000_0000 {
            self.bits as i64
        } else {
            0x8000_0000 - self.bits as i64
        }
    }

    /// Whether the number is less than another.
    pub fn less_than(self, other: Single) -> (less: bool)
        ensures
            less == self.less_than_spec(other),
    {
        !self.is_nan() && !other.is_nan() && self.ordinal() < other.ordinal()
    }

    /// Whether the size of the number is finite and not above a tolerance.
    pub fn is_within(self, tolerance: Single) -> (within: bool)
        ensures
            within == self.is_within_spec(tolerance),
    {
        self.bits % 0x8000_0000 < 0x7f80_0000 && !tolerance.is_nan() && self.abs().ordinal()
            <= tolerance.ordinal()
    }

    /// The larger of two numbers; of two equal ones, the first.
    pub fn max(self, other: Single) -> (larger: Single)
        requires
            !self.is_nan_spec(),
            !other.is_nan_spec(),
        ensures
            larger == self.max_spec(other),
    {
        if self.less_than(other) {
            other
        } else {
            self
        }
    }
}

} // verus!
