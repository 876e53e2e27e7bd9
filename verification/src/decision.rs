//! Turning aggregated statistics into bits.
//!
//! Each bit position has two statistics: its aggregated score and the number
//! of valid frames that voted 1 for it. Both are read against the global
//! threshold taken from the pilot positions of the aggregated scores, with a
//! hysteresis band of one tenth of the distance between the two pilot means:
//!
//! ```text
//! threshold = (avg_high + avg_low) / 2
//! band      = |avg_high - avg_low| / 10
//! ```
//!
//! Under inverted polarity every comparison of a score flips, and the vote
//! share `v` of a position counts as `1 - v`.
//!
//! * A position of the length header is 1 only if its vote share is at least
//!   0.54 and its score clears the threshold.
//! * Any other position is 1 if its score lies beyond the threshold by three
//!   bands or more on the side of 1, and 0 if it lies as far on the side of 0.
//!   In between, it is 1 if its vote share is at least 0.45, or if its score
//!   is no further than three quarters of a band on the side of 0.
//!
//! The two vote shares are tuned values. All comparisons are made in
//! integers, cleared of denominators, with the pilot means kept as sums over
//! four scores (see [`PilotStats`]).

use crate::pilot::PilotStats;
use crate::protocol::{PILOT_BITS, PREAMBLE_BITS};
use vstd::prelude::*;

verus! {

/// Vote share, in percent, that a header bit needs to be 1.
pub const HEADER_VOTE_PERCENT: u32 = 54;

/// Vote share, in percent, that makes an ambiguous payload bit 1.
pub const PAYLOAD_VOTE_PERCENT: u32 = 45;

/// Whether position `idx` belongs to the length header.
pub open spec fn in_length_header(idx: int) -> bool {
    PILOT_BITS <= idx < PREAMBLE_BITS
}

/// The vote share of a position, adjusted for polarity, is at least
/// `percent` hundredths: `votes / valid`, or `1 - votes / valid` when
/// inverted, compared without dividing.
pub open spec fn vote_share_at_least(votes: int, valid: int, inverted: bool, percent: int) -> bool {
    let effective = if inverted {
        valid - votes
    } else {
        votes
    };
    100 * effective >= percent * valid
}

/// The score clears the threshold on the side of 1:
/// `score >= threshold`, or `score <= threshold` when inverted.
pub open spec fn clears_threshold(score: int, stats: PilotStats, inverted: bool) -> bool {
    if inverted {
        8 * score <= stats.threshold_x8()
    } else {
        8 * score >= stats.threshold_x8()
    }
}

/// The score lies three bands or more beyond the threshold on the side of
/// 1: `score >= threshold + 3 * band`, or `score <= threshold - 3 * band`
/// when inverted.
pub open spec fn confident_one(score: int, stats: PilotStats, inverted: bool) -> bool {
    if inverted {
        40 * score <= 5 * stats.threshold_x8() - 3 * stats.spread_x4()
    } else {
        40 * score >= 5 * stats.threshold_x8() + 3 * stats.spread_x4()
    }
}

/// The score lies three bands or more beyond the threshold on the side of
/// 0: `score <= threshold - 3 * band`, or `score >= threshold + 3 * band`
/// when inverted.
pub open spec fn confident_zero(score: int, stats: PilotStats, inverted: bool) -> bool {
    if inverted {
        40 * score >= 5 * stats.threshold_x8() + 3 * stats.spread_x4()
    } else {
        40 * score <= 5 * stats.threshold_x8() - 3 * stats.spread_x4()
    }
}

/// The score lies no further than three quarters of a band on the side of
/// 0: `score >= threshold - 0.75 * band`, or `score <= threshold + 0.75 * band`
/// when inverted.
pub open spec fn softly_one(score: int, stats: PilotStats, inverted: bool) -> bool {
    if inverted {
        160 * score <= 20 * stats.threshold_x8() + 3 * stats.spread_x4()
    } else {
        160 * score >= 20 * stats.threshold_x8() - 3 * stats.spread_x4()
    }
}

/// The bit decided for position `idx`.
pub open spec fn decide_bit(
    idx: int,
    score: int,
    votes: int,
    valid: int,
    stats: PilotStats,
    inverted: bool,
) -> u8 {
    if in_length_header(idx) {
        if vote_share_at_least(votes, valid, inverted, HEADER_VOTE_PERCENT as int)
            && clears_threshold(
            score,
            stats,
            inverted,
        ) {
            1u8
        } else {
            0u8
        }
    } else if confident_one(score, stats, inverted) {
        1u8
    } else if confident_zero(score, stats, inverted) {
        0u8
    } else if vote_share_at_least(votes, valid, inverted, PAYLOAD_VOTE_PERCENT as int)
        || softly_one(
        score,
        stats,
        inverted,
    ) {
        1u8
    } else {
        0u8
    }
}

/// The bits decided for all positions that have both a score and a vote
/// count.
pub open spec fn decided_bits(
    scores: Seq<i64>,
    votes: Seq<usize>,
    valid: int,
    stats: PilotStats,
    inverted: bool,
) -> Seq<u8> {
    Seq::new(
        if scores.len() <= votes.len() {
            scores.len()
        } else {
            votes.len()
        },
        |i: int| decide_bit(i, scores[i] as int, votes[i] as int, valid, stats, inverted),
    )
}

/// Outside the length header, a score that clears the threshold always
/// yields 1: the margin of the first tier decides nothing that the soft
/// comparison of the last tier would not decide the same way.
pub proof fn lemma_clearing_score_is_one(
    idx: int,
    score: int,
    votes: int,
    valid: int,
    stats: PilotStats,
    inverted: bool,
)
    requires
        !in_length_header(idx),
        clears_threshold(score, stats, inverted),
    ensures
        decide_bit(idx, score, votes, valid, stats, inverted) == 1,
{
}

/// Every decided bit is 0 or 1.
pub proof fn lemma_decide_bit_binary(
    idx: int,
    score: int,
    votes: int,
    valid: int,
    stats: PilotStats,
    inverted: bool,
)
    ensures
        decide_bit(idx, score, votes, valid, stats, inverted) <= 1,
{
}

/// Decides one bit.
fn decide(
    idx: usize,
    score: i64,
    votes: usize,
    valid_frames: usize,
    stats: &PilotStats,
    inverted: bool,
) -> (bit: u8)
    requires
        stats.in_range(),
    ensures
        bit == decide_bit(
            idx as int,
            score as int,
            votes as int,
            valid_frames as int,
            *stats,
            inverted,
        ),
{
    let score: i128 = score as i128;
    let threshold_x8: i128 = stats.sum_high + stats.sum_low;
    let spread_x4: i128 = if stats.sum_high >= stats.sum_low {
        stats.sum_high - stats.sum_low
    } else {
        stats.sum_low - stats.sum_high
    };
    let valid: i128 = valid_frames as i128;
    let effective: i128 = if inverted {
        valid - votes as i128
    } else {
        votes as i128
    };
    let header_share: i128 = HEADER_VOTE_PERCENT as i128;
    let payload_share: i128 = PAYLOAD_VOTE_PERCENT as i128;
    proof {
        assert(header_share * valid == 54 * valid) by (nonlinear_arith)
            requires
                header_share == 54,
        ;
        assert(payload_share * valid == 45 * valid) by (nonlinear_arith)
            requires
                payload_share == 45,
        ;
    }
    if PILOT_BITS <= idx && idx < PREAMBLE_BITS {
        let clears: bool = if inverted {
            8 * score <= threshold_x8
        } else {
            8 * score >= threshold_x8
        };
        if 100 * effective >= header_share * valid && clears {
            1
        } else {
            0
        }
    } else {
        let far_above: bool = 40 * score >= 5 * threshold_x8 + 3 * spread_x4;
        let far_below: bool = 40 * score <= 5 * threshold_x8 - 3 * spread_x4;
        let (sure_one, sure_zero, soft) = if inverted {
            (far_below, far_above, 160 * score <= 20 * threshold_x8 + 3 * spread_x4)
        } else {
            (far_above, far_below, 160 * score >= 20 * threshold_x8 - 3 * spread_x4)
        };
        if sure_one {
            1
        } else if sure_zero {
            0
        } else if 100 * effective >= payload_share * valid || soft {
            1
        } else {
            0
        }
    }
}

/// Decides a bit for every position that has both a score and a vote count.
///
/// `votes[i]` is the number of frames, out of `valid_frames`, that voted 1
/// for position `i`; `stats` holds the pilot sums of the aggregated scores
/// and `inverted` the global polarity.
pub fn decide_bits(
    scores: &[i64],
    votes: &[usize],
    valid_frames: usize,
    stats: &PilotStats,
    inverted: bool,
) -> (bits: Vec<u8>)
    requires
        stats.in_range(),
    ensures
        bits@ == decided_bits(scores@, votes@, valid_frames as int, *stats, inverted),
{
    let count: usize = if scores.len() <= votes.len() {
        scores.len()
    } else {
        votes.len()
    };
    let ghost want = decided_bits(scores@, votes@, valid_frames as int, *stats, inverted);
    let mut bits: Vec<u8> = Vec::new();
    let mut i: usize = 0;
    while i < count
        invariant
            i <= count,
            count <= scores@.len(),
            count <= votes@.len(),
            count == want.len(),
            stats.in_range(),
            want == decided_bits(scores@, votes@, valid_frames as int, *stats, inverted),
            bits@ =~= want.take(i as int),
        decreases count - i,
    {
        bits.push(decide(i, scores[i], votes[i], valid_frames, stats, inverted));
        i += 1;
    }
    bits
}

} // verus!
