//! Total order on similarity scores.
//!
//! A score is the bit pattern of an `f32`. Scores are compared as real
//! numbers, with `-0.0 == +0.0`; every NaN ranks below every other value
//! (including negative infinity) and all NaNs rank equal to each other.
use vstd::prelude::*;

verus! {

/// Magnitude bits of positive infinity; larger magnitudes are NaNs.
pub const INFINITY_MAGNITUDE: u32 = 0x7f80_0000;

/// Offset that places every non-NaN score above the rank of NaN.
pub const SIGN_BIT: u32 = 0x8000_0000;

/// The magnitude of a score: its bit pattern without the sign bit.
pub open spec fn magnitude(bits: u32) -> int {
    bits as int % (SIGN_BIT as int)
}

/// Whether a bit pattern encodes a NaN.
pub open spec fn is_nan(bits: u32) -> bool {
    magnitude(bits) > INFINITY_MAGNITUDE as int
}

/// Rank of a score in the total order: larger means a better score.
pub open spec fn score_key(bits: u32) -> int {
    if is_nan(bits) {
        0
    } else if bits >= SIGN_BIT {
        SIGN_BIT as int - magnitude(bits)
    } else {
        SIGN_BIT as int + magnitude(bits)
    }
}

/// Computes the rank of a score in the total order.
pub fn rank_of(bits: u32) -> (r: u64)
    ensures
        r as int == score_key(bits),
{
    let mag: u32 = bits % SIGN_BIT;
    if mag > INFINITY_MAGNITUDE {
        0
    } else if bits >= SIGN_BIT {
        (SIGN_BIT - mag) as u64
    } else {
        SIGN_BIT as u64 + mag as u64
    }
}

/// Bit pattern of the most negative finite `f32` (`f32::MIN`), the lower
/// bound used when none is given.
pub const LOWEST_FINITE: u32 = 0xff7f_ffff;

/// The lower bound in force: `better_than`, or `f32::MIN` when none is given.
pub open spec fn threshold_of(better_than: Option<u32>) -> u32 {
    match better_than {
        None => LOWEST_FINITE,
        Some(t) => t,
    }
}

/// Whether `score` survives the optional lower bound `better_than`: it
/// must not rank below the bound in force. Without a bound this drops only
/// NaN and negative infinity, which rank below every finite score.
pub open spec fn passes_threshold(score: u32, better_than: Option<u32>) -> bool {
    score_key(score) >= score_key(threshold_of(better_than))
}

/// Tests a score against an optional lower bound.
pub fn passes(score: u32, better_than: Option<u32>) -> (r: bool)
    ensures
        r == passes_threshold(score, better_than),
{
    let t = match better_than {
        None => LOWEST_FINITE,
        Some(t) => t,
    };
    rank_of(score) >= rank_of(t)
}

/// A candidate for ranking: the score of the record at `index`.
#[derive(Clone, Copy, Debug, PartialEq, Eq, Structural)]
pub struct ScoredIndex {
    /// Bit pattern of the `f32` score.
    pub score: u32,
    /// Position of the scored record in the store.
    pub index: usize,
}

impl ScoredIndex {
    /// Rank of this candidate's score.
    pub open spec fn key(self) -> int {
        score_key(self.score)
    }

    /// Compares two candidates so that the better score sorts first:
    /// `Less` when `self` has the higher score, `Greater` when it has the
    /// lower one, and `Equal` when the scores rank equal (whatever the
    /// indices).
    pub fn cmp(&self, other: &ScoredIndex) -> (r: core::cmp::Ordering)
        ensures
            (r == core::cmp::Ordering::Less) == (self.key() > other.key()),
            (r == core::cmp::Ordering::Equal) == (self.key() == other.key()),
            (r == core::cmp::Ordering::Greater) == (self.key() < other.key()),
    {
        let a = rank_of(self.score);
        let b = rank_of(other.score);
        if a > b {
            core::cmp::Ordering::Less
        } else if a == b {
            core::cmp::Ordering::Equal
        } else {
            core::cmp::Ordering::Greater
        }
    }
}

} // verus!
