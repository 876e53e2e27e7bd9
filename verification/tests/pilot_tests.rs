use msg_encoder::pilot::{frame_pilot_stats, pilot_stats, FramePilot, PilotStats, MIN_PILOT_MATCHES};

#[test]
fn sums_over_pilot_ones_and_zeros() {
    let scores = [1, 20, 3, 40, 5, 60, 7, 80, 1000, 2000];
    assert_eq!(
        pilot_stats(&scores),
        PilotStats { sum_high: 200, sum_low: 16 }
    );
}

#[test]
fn sums_do_not_overflow() {
    let scores = [i64::MAX; 8];
    let stats = pilot_stats(&scores);
    assert_eq!(stats.sum_high, 4 * i64::MAX as i128);
    assert_eq!(stats.sum_low, 4 * i64::MAX as i128);
    let scores = [i64::MIN; 8];
    let stats = pilot_stats(&scores);
    assert_eq!(stats.sum_high, 4 * i64::MIN as i128);
}

#[test]
fn too_few_scores_for_a_pilot() {
    assert_eq!(frame_pilot_stats(&[]), None);
    assert_eq!(frame_pilot_stats(&[1, 2, 3, 4, 5, 6, 7]), None);
}

#[test]
fn a_clean_pilot_matches_in_normal_polarity() {
    let scores = [-4, 4, -4, 4, -4, 4, -4, 4];
    assert_eq!(
        frame_pilot_stats(&scores),
        Some(FramePilot { threshold_x8: 0, matches: 8, inverted: false })
    );
}

#[test]
fn a_mirrored_pilot_matches_in_inverted_polarity() {
    let scores = [4, -4, 4, -4, 4, -4, 4, -4];
    assert_eq!(
        frame_pilot_stats(&scores),
        Some(FramePilot { threshold_x8: 0, matches: 8, inverted: true })
    );
}

#[test]
fn threshold_is_the_midpoint_of_the_two_means() {
    // avg_high = 10, avg_low = 2: threshold 6, eight times that is 48.
    let scores = [2, 10, 2, 10, 2, 10, 2, 10, 99];
    let pilot = frame_pilot_stats(&scores).unwrap();
    assert_eq!(pilot.threshold_x8, 48);
    assert_eq!(pilot.matches, 8);
    assert!(!pilot.inverted);
}

#[test]
fn zero_scores_match_half_the_pilot() {
    // Every score equals the threshold, so every position reads as 1 in
    // either polarity: the four pilot ones match.
    assert_eq!(
        frame_pilot_stats(&[0; 8]),
        Some(FramePilot { threshold_x8: 0, matches: 4, inverted: false })
    );
    assert!(4 < MIN_PILOT_MATCHES);
}

#[test]
fn a_noisy_pilot_counts_its_matches() {
    // Sum is 0, so the threshold is 0. Read normally: positions 0..8 give
    // 0 1 1 1 0 0 0 1: positions 2 and 5 are wrong, six match.
    let scores = [-3, 5, 1, 2, -6, -1, -2, 4];
    assert_eq!(
        frame_pilot_stats(&scores),
        Some(FramePilot { threshold_x8: 0, matches: 6, inverted: false })
    );
}

#[test]
fn polarity_goes_to_normal_on_a_draw() {
    // Threshold 0. Normal: 1 1 0 0 1 1 0 0 against 0 1 0 1 0 1 0 1: four.
    // Inverted: 0 0 1 1 0 0 1 1: four as well.
    let scores = [1, 1, -1, -1, 1, 1, -1, -1];
    assert_eq!(
        frame_pilot_stats(&scores),
        Some(FramePilot { threshold_x8: 0, matches: 4, inverted: false })
    );
}

#[test]
fn a_score_on_the_threshold_reads_as_one_both_ways() {
    // Sum 8, threshold 1. Scores of 1 sit on the threshold.
    let scores = [1, 1, 1, 1, 1, 1, 1, 1];
    let pilot = frame_pilot_stats(&scores).unwrap();
    assert_eq!(pilot.threshold_x8, 8);
    assert_eq!(pilot.matches, 4);
    assert!(!pilot.inverted);
}
