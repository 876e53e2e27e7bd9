//! Calibration against the pilot.
//!
//! The first eight scores of a score vector belong to the pilot, whose bits
//! are known. Their two means, over the four positions where the pilot is 1
//! (`avg_high`) and over the four where it is 0 (`avg_low`), give the decision
//! threshold: the midpoint of the two.
//!
//! To stay exact in integers, the means are kept as sums. Both means run
//! over four scores, so
//!
//! ```text
//! avg_high  = sum_high / 4
//! avg_low   = sum_low / 4
//! threshold = (sum_high + sum_low) / 8
//! ```
//!
//! and `score >= threshold` is decided as `8 * score >= sum_high + sum_low`.

use crate::protocol::{pilot_bit, PILOT_PATTERN};
use vstd::prelude::*;

verus! {

/// How many pilot bits a frame must reproduce to be accepted.
pub const MIN_PILOT_MATCHES: usize = 5;

/// Sum of the scores at the first `n` positions where the pilot bit is
/// `bit`.
pub open spec fn pilot_sum(scores: Seq<i64>, bit: u8, n: int) -> int
    decreases n,
{
    if n <= 0 {
        0
    } else {
        pilot_sum(scores, bit, n - 1) + if pilot_bit(n - 1) == bit {
            scores[n - 1] as int
        } else {
            0int
        }
    }
}

/// Four times `avg_high`: the sum of the scores where the pilot is 1.
pub open spec fn sum_high(scores: Seq<i64>) -> int {
    pilot_sum(scores, 1, 8)
}

/// Four times `avg_low`: the sum of the scores where the pilot is 0.
pub open spec fn sum_low(scores: Seq<i64>) -> int {
    pilot_sum(scores, 0, 8)
}

/// Eight times the threshold: the midpoint of `avg_high` and `avg_low`,
/// cleared of its denominator.
pub open spec fn threshold_x8(scores: Seq<i64>) -> int {
    sum_high(scores) + sum_low(scores)
}

/// Whether a score reads as a 1 against a threshold: at or above it in
/// normal polarity, at or below it in inverted polarity.
pub open spec fn reads_as_one(score: int, threshold_x8: int, inverted: bool) -> bool {
    if inverted {
        8 * score <= threshold_x8
    } else {
        8 * score >= threshold_x8
    }
}

/// Number of positions among the first `n` where the score, read against
/// the threshold in the given polarity, reproduces the pilot bit.
pub open spec fn pilot_matches(scores: Seq<i64>, threshold_x8: int, inverted: bool, n: int) -> int
    decreases n,
{
    if n <= 0 {
        0
    } else {
        pilot_matches(scores, threshold_x8, inverted, n - 1) + if reads_as_one(
            scores[n - 1] as int,
            threshold_x8,
            inverted,
        ) == (pilot_bit(n - 1) == 1) {
            1int
        } else {
            0int
        }
    }
}

/// Pilot matches of a frame in normal polarity.
pub open spec fn matches_normal(scores: Seq<i64>) -> int {
    pilot_matches(scores, threshold_x8(scores), false, 8)
}

/// Pilot matches of a frame in inverted polarity.
pub open spec fn matches_inverted(scores: Seq<i64>) -> int {
    pilot_matches(scores, threshold_x8(scores), true, 8)
}

/// The polarity a frame is read in: inverted when that reproduces strictly
/// more pilot bits than normal polarity does.
pub open spec fn frame_inverted(scores: Seq<i64>) -> bool {
    matches_inverted(scores) > matches_normal(scores)
}

/// Pilot matches of a frame in the polarity it is read in.
pub open spec fn frame_matches(scores: Seq<i64>) -> int {
    if frame_inverted(scores) {
        matches_inverted(scores)
    } else {
        matches_normal(scores)
    }
}

/// The two pilot sums of a score vector.
#[derive(Clone, Copy, Debug, PartialEq, Eq)]
pub struct PilotStats {
    /// Sum of the four scores where the pilot is 1: four times `avg_high`.
    pub sum_high: i128,
    /// Sum of the four scores where the pilot is 0: four times `avg_low`.
    pub sum_low: i128,
}

impl PilotStats {
    /// Eight times the decision threshold.
    pub open spec fn threshold_x8(self) -> int {
        self.sum_high + self.sum_low
    }

    /// Four times the distance between the two means.
    pub open spec fn spread_x4(self) -> int {
        if self.sum_high >= self.sum_low {
            self.sum_high - self.sum_low
        } else {
            self.sum_low - self.sum_high
        }
    }

    /// The two sums stay within what eight 64-bit scores can add up to.
    pub open spec fn in_range(self) -> bool {
        &&& -0x4_0000_0000_0000_0000 <= self.sum_high <= 0x4_0000_0000_0000_0000
        &&& -0x4_0000_0000_0000_0000 <= self.sum_low <= 0x4_0000_0000_0000_0000
    }
}

/// What the pilot says about one frame.
#[derive(Clone, Copy, Debug, PartialEq, Eq)]
pub struct FramePilot {
    /// Eight times the frame's decision threshold.
    pub threshold_x8: i128,
    /// How many of the eight pilot bits the frame reproduces in the polarity
    /// it is read in.
    pub matches: usize,
    /// Whether the frame is read in inverted polarity.
    pub inverted: bool,
}

/// A pilot sum over `n` positions is bounded by `n` times the range of a
/// score.
pub proof fn lemma_pilot_sum_bounds(scores: Seq<i64>, bit: u8, n: int)
    requires
        0 <= n,
    ensures
        n * (-0x8000_0000_0000_0000) <= pilot_sum(scores, bit, n) <= n * 0x7fff_ffff_ffff_ffff,
    decreases n,
{
    if n > 0 {
        lemma_pilot_sum_bounds(scores, bit, n - 1);
    }
}

/// Where the first eight scores are all zero, each polarity reproduces
/// exactly the four pilot bits that are 1, so the frame falls short of five
/// matches.
pub proof fn lemma_zero_scores_match_four(scores: Seq<i64>)
    requires
        scores.len() >= 8,
        forall|i: int| 0 <= i < 8 ==> scores[i] == 0,
    ensures
        threshold_x8(scores) == 0,
        matches_normal(scores) == 4,
        matches_inverted(scores) == 4,
        !frame_inverted(scores),
        frame_matches(scores) == 4,
{
    reveal_with_fuel(pilot_sum, 9);
    reveal_with_fuel(pilot_matches, 9);
}

/// Sums the pilot scores of a score vector.
pub fn pilot_stats(scores: &[i64]) -> (stats: PilotStats)
    requires
        scores.len() >= 8,
    ensures
        stats.sum_high == sum_high(scores@),
        stats.sum_low == sum_low(scores@),
        stats.in_range(),
{
    let mut high: i128 = 0;
    let mut low: i128 = 0;
    let mut i: usize = 0;
    while i < 8
        invariant
            i <= 8,
            scores@.len() >= 8,
            high == pilot_sum(scores@, 1, i as int),
            low == pilot_sum(scores@, 0, i as int),
        decreases 8 - i,
    {
        proof {
            lemma_pilot_sum_bounds(scores@, 1, i as int);
            lemma_pilot_sum_bounds(scores@, 0, i as int);
        }
        if PILOT_PATTERN[i] == 1 {
            high = high + scores[i] as i128;
        } else {
            low = low + scores[i] as i128;
        }
        i += 1;
    }
    proof {
        lemma_pilot_sum_bounds(scores@, 1, 8);
        lemma_pilot_sum_bounds(scores@, 0, 8);
    }
    PilotStats { sum_high: high, sum_low: low }
}

/// Counts the pilot bits that `scores` reproduces against a threshold, in
/// the given polarity.
fn count_pilot_matches(scores: &[i64], threshold_x8: i128, inverted: bool) -> (count: usize)
    requires
        scores.len() >= 8,
    ensures
        count == pilot_matches(scores@, threshold_x8 as int, inverted, 8),
        count <= 8,
{
    let mut count: usize = 0;
    let mut i: usize = 0;
    while i < 8
        invariant
            i <= 8,
            scores@.len() >= 8,
            count == pilot_matches(scores@, threshold_x8 as int, inverted, i as int),
            count <= i,
        decreases 8 - i,
    {
        let score: i128 = 8 * (scores[i] as i128);
        let one: bool = if inverted {
            score <= threshold_x8
        } else {
            score >= threshold_x8
        };
        if one == (PILOT_PATTERN[i] == 1) {
            count += 1;
        }
        i += 1;
    }
    count
}

/// Calibrates one frame against the pilot.
///
/// Returns `None` when the frame has fewer scores than the pilot has bits.
/// Otherwise the threshold is the midpoint of the two pilot means, and the
/// frame is read in whichever polarity reproduces more pilot bits, normal
/// polarity on a draw.
pub fn frame_pilot_stats(scores: &[i64]) -> (pilot: Option<FramePilot>)
    ensures
        pilot is None <==> scores@.len() < 8,
        pilot matches Some(p) ==> {
            &&& p.threshold_x8 == threshold_x8(scores@)
            &&& p.inverted == frame_inverted(scores@)
            &&& p.matches == frame_matches(scores@)
        },
{
    if scores.len() < 8 {
        return None;
    }
    let stats = pilot_stats(scores);
    let threshold_x8: i128 = stats.sum_high + stats.sum_low;
    let normal = count_pilot_matches(scores, threshold_x8, false);
    let inverted = count_pilot_matches(scores, threshold_x8, true);
    if inverted > normal {
        Some(FramePilot { threshold_x8, matches: inverted, inverted: true })
    } else {
        Some(FramePilot { threshold_x8, matches: normal, inverted: false })
    }
}

} // verus!
