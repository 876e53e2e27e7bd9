use msg_encoder::decision::{decide_bits, HEADER_VOTE_PERCENT, PAYLOAD_VOTE_PERCENT};
use msg_encoder::pilot::PilotStats;

/// `avg_high` 100 and `avg_low` -100: threshold 0, band 20.
const STATS: PilotStats = PilotStats { sum_high: 400, sum_low: -400 };

/// Decides position `idx` alone, for `votes` out of `valid` frames.
fn decide_at(idx: usize, score: i64, votes: usize, valid: usize, inverted: bool) -> u8 {
    let mut scores = vec![0i64; idx + 1];
    let mut counts = vec![0usize; idx + 1];
    scores[idx] = score;
    counts[idx] = votes;
    decide_bits(&scores, &counts, valid, &STATS, inverted)[idx]
}

#[test]
fn tuned_vote_shares() {
    assert_eq!(HEADER_VOTE_PERCENT, 54);
    assert_eq!(PAYLOAD_VOTE_PERCENT, 45);
}

#[test]
fn confident_scores_decide_alone() {
    // Three bands are 60.
    assert_eq!(decide_at(30, 60, 0, 10, false), 1);
    assert_eq!(decide_at(30, -60, 10, 10, false), 0);
    assert_eq!(decide_at(30, -61, 10, 10, false), 0);
}

#[test]
fn a_score_above_the_threshold_is_one_whatever_the_votes() {
    assert_eq!(decide_at(30, 59, 0, 10, false), 1);
    assert_eq!(decide_at(30, 0, 0, 10, false), 1);
}

#[test]
fn the_soft_margin_is_three_quarters_of_a_band() {
    // Three quarters of a band are 15.
    assert_eq!(decide_at(30, -15, 0, 10, false), 1);
    assert_eq!(decide_at(30, -16, 0, 10, false), 0);
}

#[test]
fn in_the_ambiguous_zone_the_votes_decide() {
    assert_eq!(decide_at(30, -16, 4, 10, false), 0);
    assert_eq!(decide_at(30, -16, 5, 10, false), 1);
    assert_eq!(decide_at(30, -59, 5, 10, false), 1);
    // 45 percent of 20 frames are 9.
    assert_eq!(decide_at(24, -30, 9, 20, false), 1);
    assert_eq!(decide_at(24, -30, 8, 20, false), 0);
}

#[test]
fn pilot_positions_follow_the_payload_rule() {
    assert_eq!(decide_at(7, -30, 9, 20, false), 1);
    assert_eq!(decide_at(0, -30, 8, 20, false), 0);
}

#[test]
fn a_header_bit_needs_votes_and_score() {
    assert_eq!(decide_at(10, 0, 6, 10, false), 1);
    assert_eq!(decide_at(10, 0, 5, 10, false), 0);
    assert_eq!(decide_at(10, -1, 10, 10, false), 0);
    assert_eq!(decide_at(10, 1000, 5, 10, false), 0);
    // 54 percent of 50 frames are 27.
    assert_eq!(decide_at(8, 5, 27, 50, false), 1);
    assert_eq!(decide_at(8, 5, 26, 50, false), 0);
    assert_eq!(decide_at(23, 5, 27, 50, false), 1);
}

#[test]
fn the_header_ends_before_position_twenty_four() {
    // With the votes of a header position this would be 0.
    assert_eq!(decide_at(23, 5, 0, 50, false), 0);
    assert_eq!(decide_at(24, 5, 0, 50, false), 1);
    assert_eq!(decide_at(7, 5, 0, 50, false), 1);
    assert_eq!(decide_at(8, 5, 0, 50, false), 0);
}

#[test]
fn inverted_polarity_flips_scores_and_votes() {
    assert_eq!(decide_at(30, -60, 10, 10, true), 1);
    assert_eq!(decide_at(30, 60, 0, 10, true), 0);
    assert_eq!(decide_at(30, 15, 10, 10, true), 1);
    assert_eq!(decide_at(30, 16, 10, 10, true), 0);
    // The vote share counts as one minus itself: 5 of 10 is still 0.5.
    assert_eq!(decide_at(30, 16, 5, 10, true), 1);
    assert_eq!(decide_at(30, 59, 10, 10, true), 0);
    assert_eq!(decide_at(30, 59, 5, 10, true), 1);
}

#[test]
fn inverted_header_bits() {
    assert_eq!(decide_at(10, 0, 4, 10, true), 1);
    assert_eq!(decide_at(10, 0, 5, 10, true), 0);
    assert_eq!(decide_at(10, 1, 0, 10, true), 0);
    assert_eq!(decide_at(10, -1, 0, 10, true), 1);
    // 1 - 23/50 = 0.54, 1 - 24/50 = 0.52.
    assert_eq!(decide_at(8, -5, 23, 50, true), 1);
    assert_eq!(decide_at(8, -5, 24, 50, true), 0);
}

#[test]
fn with_no_band_the_threshold_decides() {
    // Both means are 10: the band is zero and the threshold 10.
    let stats = PilotStats { sum_high: 40, sum_low: 40 };
    let scores = [9i64, 10, 11];
    assert_eq!(decide_bits(&scores, &[0, 0, 0], 10, &stats, false), vec![0, 1, 1]);
    assert_eq!(decide_bits(&scores, &[10, 10, 10], 10, &stats, true), vec![1, 1, 0]);
}

#[test]
fn a_whole_sequence() {
    let scores = [
        -100i64, 100, -100, 100, -100, 100, -100, 100, 50, -50, 0, 0, 0, 0, 0, 0, 0, 0, 0, 0, 0,
        0, 0, 0, 70, -70, 10, -10, -20, -40,
    ];
    let votes = [
        0usize, 10, 0, 10, 0, 10, 0, 10, 10, 10, 6, 5, 0, 0, 0, 0, 0, 0, 0, 0, 0, 0, 0, 0, 0,
        10, 0, 0, 5, 4,
    ];
    assert_eq!(
        decide_bits(&scores, &votes, 10, &STATS, false),
        vec![
            0, 1, 0, 1, 0, 1, 0, 1, 1, 0, 1, 0, 0, 0, 0, 0, 0, 0, 0, 0, 0, 0, 0, 0, 1, 0, 1, 1,
            1, 0
        ]
    );
    assert_eq!(
        decide_bits(&scores, &votes, 10, &STATS, true),
        vec![
            1, 0, 1, 0, 1, 0, 1, 0, 0, 0, 0, 0, 1, 1, 1, 1, 1, 1, 1, 1, 1, 1, 1, 1, 0, 1, 1, 1,
            1, 1
        ]
    );
}

#[test]
fn as_many_bits_as_there_are_scores_and_votes() {
    assert_eq!(decide_bits(&[1, 2, 3], &[0], 1, &STATS, false).len(), 1);
    assert_eq!(decide_bits(&[1], &[0, 0, 0], 1, &STATS, false).len(), 1);
    assert_eq!(decide_bits(&[], &[], 1, &STATS, false), Vec::<u8>::new());
}

#[test]
fn the_widest_scores_do_not_overflow() {
    let stats = PilotStats { sum_high: 4 * i64::MAX as i128, sum_low: 4 * i64::MIN as i128 };
    let scores = [i64::MAX, i64::MIN];
    let votes = [usize::MAX, 0];
    assert_eq!(decide_bits(&scores, &votes, usize::MAX, &stats, false), vec![1, 0]);
    assert_eq!(decide_bits(&scores, &votes, usize::MAX, &stats, true), vec![0, 1]);
}
