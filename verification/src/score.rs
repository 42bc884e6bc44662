//! Similarity scores: IEEE 754 single-precision numbers, held and compared by their bits.

use vstd::prelude::*;

verus! {

/// A similarity score, as the 32 bits of a single-precision number.
#[derive(Clone, Copy, Debug, PartialEq, Eq, Structural)]
pub struct Score {
    pub bits: u32,
}

impl Score {
    /// The sign bit is set.
    pub open spec fn negative(self) -> bool {
        self.bits >= 0x8000_0000
    }

    /// Exponent and fraction: the bits below the sign.
    pub open spec fn magnitude(self) -> int {
        if self.negative() {
            self.bits - 0x8000_0000
        } else {
            self.bits as int
        }
    }

    /// Not a number: all exponent bits and some fraction bit are set.
    pub open spec fn nan(self) -> bool {
        self.magnitude() > 0x7f80_0000
    }

    /// The place of a number among the numbers. Both zeros share one.
    pub open spec fn rank(self) -> int {
        if self.negative() {
            -self.magnitude()
        } else {
            self.magnitude()
        }
    }

    /// The place in the total order of all bit patterns: negative zero directly below positive
    /// zero, and the patterns that are no numbers at the two ends.
    pub open spec fn total_rank(self) -> int {
        if self.negative() {
            -self.magnitude() - 1
        } else {
            self.magnitude()
        }
    }

    /// Numerically below: false wherever one side is not a number.
    pub open spec fn below(self, other: Score) -> bool {
        !self.nan() && !other.nan() && self.rank() < other.rank()
    }

    /// The smaller number; the other one where one is not a number; `self` where they are equal.
    pub open spec fn lesser(self, other: Score) -> Score {
        if self.nan() || other.below(self) {
            other
        } else {
            self
        }
    }

    /// The larger number; the other one where one is not a number; `self` where they are equal.
    pub open spec fn greater(self, other: Score) -> Score {
        if self.nan() || self.below(other) {
            other
        } else {
            self
        }
    }

    /// The score with these bits.
    pub fn from_bits(bits: u32) -> (r: Score)
        ensures
            r.bits == bits,
    {
        Score { bits }
    }

    /// Whether the score is not a number.
    pub fn is_nan(&self) -> (r: bool)
        ensures
            r == self.nan(),
    {
        let m: u32 = if self.bits >= 0x8000_0000 {
            self.bits - 0x8000_0000
        } else {
            self.bits
        };
        m > 0x7f80_0000
    }

    fn place(&self) -> (r: i64)
        ensures
            r == self.rank(),
    {
        if self.bits >= 0x8000_0000 {
            -((self.bits - 0x8000_0000) as i64)
        } else {
            self.bits as i64
        }
    }

    /// Whether `self` is numerically below `other`.
    pub fn is_below(&self, other: &Score) -> (r: bool)
        ensures
            r == self.below(*other),
    {
        !self.is_nan() && !other.is_nan() && self.place() < other.place()
    }

    /// Whether `self` comes before `other` in the total order of all bit patterns.
    pub fn is_totally_below(&self, other: &Score) -> (r: bool)
        ensures
            r == (self.total_rank() < other.total_rank()),
    {
        let a: i64 = if self.bits >= 0x8000_0000 {
            -((self.bits - 0x8000_0000) as i64) - 1
        } else {
            self.bits as i64
        };
        let b: i64 = if other.bits >= 0x8000_0000 {
            -((other.bits - 0x8000_0000) as i64) - 1
        } else {
            other.bits as i64
        };
        a < b
    }

    /// The smaller of two scores.
    pub fn min(self, other: Score) -> (r: Score)
        ensures
            r == self.lesser(other),
    {
        if self.is_nan() || other.is_below(&self) {
            other
        } else {
            self
        }
    }

    /// The larger of two scores.
    pub fn max(self, other: Score) -> (r: Score)
        ensures
            r == self.greater(other),
    {
        if self.is_nan() || self.is_below(&other) {
            other
        } else {
            self
        }
    }
}

/// The bits of the largest finite number.
pub const LARGEST: u32 = 0x7f7f_ffff;

/// The bits of the smallest finite number.
pub const SMALLEST: u32 = 0xff7f_ffff;

/// The total order tells any two different bit patterns apart.
pub proof fn law_total_order_separates(a: Score, b: Score)
    requires
        a.total_rank() == b.total_rank(),
    ensures
        a == b,
{
}

/// Among numbers that are not both zero, the total order is the numerical one.
pub proof fn law_total_order_agrees(a: Score, b: Score)
    requires
        !a.nan(),
        !b.nan(),
    ensures
        a.below(b) ==> a.total_rank() < b.total_rank(),
        a.total_rank() < b.total_rank() ==> a.below(b) || (a.rank() == 0 && b.rank() == 0),
{
}

/// What the bits say of the order. With the sign bit off, greater bits are the greater number; with it
/// on, the smaller one. A negative number is below every other but for the two zeros, which are equal.
/// No number is above or below what is not a number: exponent bits all set and a fraction besides.
pub proof fn law_order_by_bits(a: Score, b: Score)
    ensures
        a.nan() <==> (a.bits > 0x7f80_0000 && a.bits < 0x8000_0000) || a.bits > 0xff80_0000,
        a.nan() || b.nan() ==> !a.below(b),
        !a.nan() && !b.nan() && a.bits < 0x8000_0000 && b.bits < 0x8000_0000 ==> (a.below(b) <==> a.bits < b.bits),
        !a.nan() && !b.nan() && a.bits >= 0x8000_0000 && b.bits >= 0x8000_0000 ==> (a.below(b) <==> a.bits > b.bits),
        !a.nan() && !b.nan() && a.bits >= 0x8000_0000 && b.bits < 0x8000_0000 ==> (a.below(b) <==> a.bits != 0x8000_0000
            || b.bits != 0) && !b.below(a),
{
}

/// The smaller and the larger of two scores are the two scores. Of two numbers neither is below the
/// smaller nor above the larger one; where only one is a number, that is both.
pub proof fn law_lesser_greater(a: Score, b: Score)
    ensures
        (a.lesser(b) == a && a.greater(b) == b) || (a.lesser(b) == b && a.greater(b) == a) || (a.lesser(b)
            == a.greater(b) && (a.lesser(b) == a || a.lesser(b) == b) && (a.nan() || b.nan() || a.rank() == b.rank())),
        !a.below(a.lesser(b)) && !b.below(a.lesser(b)),
        !a.greater(b).below(a) && !a.greater(b).below(b),
        a.nan() && !b.nan() ==> a.lesser(b) == b && a.greater(b) == b,
        !a.nan() && b.nan() ==> a.lesser(b) == a && a.greater(b) == a,
{
}

} // verus!
