//! Similarity scores and the order in which they are ranked.

use vstd::prelude::*;

verus! {

/// A similarity score: an IEEE 754 single-precision number, held by its bit
/// pattern so that its order can be reasoned about over the integers.
#[derive(Clone, Copy, Debug, PartialEq, Eq, Structural)]
pub struct Score {
    pub bits: u32,
}

/// The rank given to every score that is not a number: below that of negative
/// infinity, so that such scores come last in a descending ranking.
pub const NAN_RANK: i64 = -0x8000_0000;

impl Score {
    /// The bit pattern without its sign bit.
    pub open spec fn magnitude(self) -> int {
        if self.bits >= 0x8000_0000 {
            self.bits - 0x8000_0000
        } else {
            self.bits as int
        }
    }

    /// Whether the sign bit is set.
    pub open spec fn is_sign_negative(self) -> bool {
        self.bits >= 0x8000_0000
    }

    /// Whether the score is not a number: all exponent bits set and a
    /// mantissa other than zero.
    pub open spec fn is_nan(self) -> bool {
        self.magnitude() > 0x7f80_0000
    }

    /// The place of a score that is a number on the integer line. Two numbers
    /// compare as floating-point values exactly as their places compare as
    /// integers; both zeros share the place 0.
    pub open spec fn ordinal(self) -> int {
        if self.is_sign_negative() {
            -self.magnitude()
        } else {
            self.magnitude()
        }
    }

    /// The key by which scores are ranked: the place of a number, and
    /// `NAN_RANK` for what is not a number.
    pub open spec fn rank(self) -> int {
        if self.is_nan() {
            NAN_RANK as int
        } else {
            self.ordinal()
        }
    }

    /// The floating-point comparison `self < other`: false whenever either
    /// side is not a number.
    pub open spec fn less_than(self, other: Score) -> bool {
        !self.is_nan() && !other.is_nan() && self.ordinal() < other.ordinal()
    }

    /// Ranking by `rank` agrees with the floating-point comparison: of two
    /// numbers the lesser has the lesser rank, and what is not a number ranks
    /// below every number.
    pub proof fn lemma_rank_orders_as_numbers_do(self, other: Score)
        ensures
            self.less_than(other) <==> !self.is_nan() && !other.is_nan() && self.rank() < other.rank(),
            self.is_nan() && !other.is_nan() ==> self.rank() < other.rank(),
            self.is_nan() <==> self.rank() == NAN_RANK,
    {
    }

    /// Wraps the bit pattern of a single-precision number.
    pub fn from_bits(bits: u32) -> (score: Score)
        ensures
            score.bits == bits,
    {
        Score { bits }
    }

    /// The bit pattern of the score.
    pub fn to_bits(&self) -> (bits: u32)
        ensures
            bits == self.bits,
    {
        self.bits
    }

    /// Computes the ranking key of the score.
    pub fn rank_key(&self) -> (key: i64)
        ensures
            key == self.rank(),
    {
        if self.bits >= 0x8000_0000 {
            let magnitude: u32 = self.bits - 0x8000_0000;
            if magnitude > 0x7f80_0000 {
                NAN_RANK
            } else {
                -(magnitude as i64)
            }
        } else if self.bits > 0x7f80_0000 {
            NAN_RANK
        } else {
            self.bits as i64
        }
    }
}

} // verus!
