use msg_encoder::aggregate::{column_median, summarise_frames};
use msg_encoder::error::DecodeError;
use msg_encoder::frames::START_BIN;

/// A spectrum whose bins from `START_BIN` on hold `eligible`.
fn frame(eligible: &[i32]) -> Vec<i32> {
    let mut bins = vec![0; START_BIN];
    bins.extend_from_slice(eligible);
    bins
}

const CLEAN: [i32; 10] = [0, 100, 0, 100, 0, 100, 0, 100, 50, 50];
const NOISY: [i32; 10] = [10, 90, 20, 80, 0, 120, 0, 100, 100, 0];
const MIRRORED: [i32; 10] = [100, 0, 100, 0, 100, 0, 100, 0, 0, 100];
const FLAT: [i32; 10] = [5; 10];
const SEVEN_BINS: [i32; 7] = [0, 100, 0, 100, 0, 100, 0];
const EIGHT_BINS: [i32; 8] = [0, 100, 0, 100, 0, 100, 0, 100];

#[test]
fn median_of_an_odd_count() {
    assert_eq!(column_median(&vec![5, 1, 4, 2, 3]), 3);
    assert_eq!(column_median(&vec![9]), 9);
}

#[test]
fn median_of_an_even_count_is_the_upper_middle() {
    assert_eq!(column_median(&vec![4, 1, 3, 2]), 3);
    assert_eq!(column_median(&vec![10, -10]), 10);
}

#[test]
fn median_of_nothing_is_zero() {
    assert_eq!(column_median(&Vec::new()), 0);
}

#[test]
fn median_is_found_wherever_it_stands() {
    // The middle position holds the largest value before selection.
    assert_eq!(column_median(&vec![1, 2, 100, 3, 4]), 3);
    assert_eq!(column_median(&vec![7, 7, 7, 1, 9, 7]), 7);
    assert_eq!(column_median(&vec![i64::MAX, i64::MIN, 0]), 0);
}

#[test]
fn median_leaves_the_column_as_it_was() {
    let column = vec![3, 1, 2];
    assert_eq!(column_median(&column), 2);
    assert_eq!(column, vec![3, 1, 2]);
}

#[test]
fn one_clean_frame() {
    let summary = summarise_frames(&vec![frame(&CLEAN)], 10, 3).unwrap();
    assert_eq!(summary.scores, vec![-66, 75, -60, 67, -66, 59, -66, 60, -12, 0]);
    assert_eq!(summary.votes, vec![0, 1, 0, 1, 0, 1, 0, 1, 0, 0]);
    assert_eq!(summary.valid_frames, 1);
    assert_eq!(summary.skipped_frames, 0);
    assert!(!summary.inverted);
}

#[test]
fn valid_frames_are_aggregated_and_the_others_skipped() {
    let frames = vec![
        frame(&CLEAN),
        frame(&NOISY),
        frame(&MIRRORED),
        frame(&FLAT),
        frame(&SEVEN_BINS),
        frame(&EIGHT_BINS),
    ];
    let summary = summarise_frames(&frames, 10, 3).unwrap();
    assert_eq!(summary.valid_frames, 4);
    assert_eq!(summary.skipped_frames, 2);
    assert_eq!(summary.scores, vec![-53, 75, -40, 67, -66, 60, -66, 60, -12, 0]);
    assert_eq!(summary.votes, vec![0, 4, 0, 4, 0, 4, 0, 4, 2, 0]);
    assert!(!summary.inverted);
}

#[test]
fn half_the_frames_inverted_is_no_majority() {
    let frames = vec![frame(&CLEAN), frame(&MIRRORED)];
    let summary = summarise_frames(&frames, 10, 3).unwrap();
    assert_eq!(summary.valid_frames, 2);
    assert!(!summary.inverted);
    assert_eq!(summary.scores, vec![67, 75, 60, 67, 67, 59, 67, 60, -12, 67]);
    assert_eq!(summary.votes, vec![0, 2, 0, 2, 0, 2, 0, 2, 1, 0]);
}

#[test]
fn more_than_half_the_frames_inverted() {
    let frames = vec![frame(&MIRRORED), frame(&MIRRORED), frame(&CLEAN)];
    let summary = summarise_frames(&frames, 10, 3).unwrap();
    assert_eq!(summary.valid_frames, 3);
    assert!(summary.inverted);
    assert_eq!(summary.scores, vec![67, -75, 60, -66, 67, -50, 67, -60, -50, 67]);
    // Each frame votes in its own polarity.
    assert_eq!(summary.votes, vec![0, 3, 0, 3, 0, 3, 0, 3, 2, 0]);
}

#[test]
fn no_valid_frame_is_an_error() {
    let frames = vec![frame(&FLAT), frame(&SEVEN_BINS)];
    assert_eq!(
        summarise_frames(&frames, 10, 3).err(),
        Some(DecodeError::NoReliableFrames)
    );
    assert_eq!(
        summarise_frames(&Vec::new(), 10, 3).err(),
        Some(DecodeError::NoReliableFrames)
    );
}

#[test]
fn a_spectrum_that_ends_before_the_first_marked_bin_is_skipped() {
    assert_eq!(
        summarise_frames(&vec![vec![1, 2, 3]], 10, 3).err(),
        Some(DecodeError::NoReliableFrames)
    );
    assert_eq!(
        summarise_frames(&vec![vec![0; START_BIN]], 10, 3).err(),
        Some(DecodeError::NoReliableFrames)
    );
}

#[test]
fn without_bit_positions_nothing_is_valid() {
    let frames = vec![frame(&CLEAN), frame(&NOISY)];
    assert_eq!(
        summarise_frames(&frames, 0, 3).err(),
        Some(DecodeError::NoReliableFrames)
    );
    assert_eq!(
        summarise_frames(&frames, 7, 3).err(),
        Some(DecodeError::NoReliableFrames)
    );
}

#[test]
fn bins_past_the_last_bit_position_are_left_out() {
    let frames = vec![frame(&CLEAN), frame(&NOISY)];
    let summary = summarise_frames(&frames, 8, 3).unwrap();
    assert_eq!(summary.scores, vec![-53, 75, -40, 67, -66, 80, -75, 67]);
    assert_eq!(summary.votes, vec![0, 2, 0, 2, 0, 2, 0, 2]);
    assert_eq!(summary.valid_frames, 2);
}

#[test]
fn a_position_that_no_frame_covers_has_median_zero() {
    let summary = summarise_frames(&vec![frame(&EIGHT_BINS)], 10, 3).unwrap();
    assert_eq!(summary.scores, vec![-66, 75, -60, 67, -66, 60, -75, 67, 0, 0]);
    assert_eq!(summary.votes, vec![0, 1, 0, 1, 0, 1, 0, 1, 0, 0]);
}
