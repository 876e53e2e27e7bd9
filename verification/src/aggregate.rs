//! Aggregation across frames.
//!
//! Every frame is scored and calibrated on its own. A frame that reproduces
//! at least five of the eight pilot bits, in the polarity that suits it
//! best, is valid; any other frame is skipped and contributes nothing. Over
//! the valid frames, each bit position gets two statistics:
//!
//! * the median of its scores (of an even number of scores, the upper of the
//!   two middle ones), and
//! * the number of frames that read it as 1, each frame against its own
//!   threshold and in its own polarity.
//!
//! Global polarity is inverted when more than half of the valid frames were
//! read inverted.

use crate::error::DecodeError;
use crate::frames::START_BIN;
use crate::pilot::{
    frame_inverted, frame_matches, frame_pilot_stats, reads_as_one, threshold_x8, FramePilot,
    MIN_PILOT_MATCHES,
};
use crate::protocol::PILOT_BITS;
use crate::scores::{spectral_scores, spectral_scores_of};
use vstd::prelude::*;
use vstd::relations::{
    antisymmetric, reflexive, strongly_connected, total_ordering, transitive,
};
use vstd::slice::slice_subrange;

verus! {

/// The frames of a decode as mathematical sequences, one per frame.
pub open spec fn spectra(frames: Seq<Vec<i32>>) -> Seq<Seq<i32>> {
    Seq::new(frames.len(), |i: int| frames[i]@)
}

/// The log-magnitudes of a frame that take part in decoding: those from
/// `START_BIN` on, `usable` of them at most.
pub open spec fn eligible_bins(frame: Seq<i32>, usable: int) -> Seq<i32> {
    if frame.len() <= START_BIN || usable <= 0 {
        Seq::empty()
    } else if frame.len() - START_BIN <= usable {
        frame.subrange(START_BIN as int, frame.len() as int)
    } else {
        frame.subrange(START_BIN as int, START_BIN + usable)
    }
}

/// The scores of a frame, one per eligible bin.
pub open spec fn frame_scores(frame: Seq<i32>, usable: int, radius: int) -> Seq<i64> {
    spectral_scores_of(eligible_bins(frame, usable), radius)
}

/// A frame is valid when it has a score for every pilot bit and reproduces
/// at least five of them.
pub open spec fn frame_valid(frame: Seq<i32>, usable: int, radius: int) -> bool {
    let scores = frame_scores(frame, usable, radius);
    scores.len() >= PILOT_BITS && frame_matches(scores) >= MIN_PILOT_MATCHES
}

/// A valid frame that was read in inverted polarity.
pub open spec fn frame_valid_inverted(frame: Seq<i32>, usable: int, radius: int) -> bool {
    frame_valid(frame, usable, radius) && frame_inverted(frame_scores(frame, usable, radius))
}

/// A valid frame that has a score for bit position `bin`.
pub open spec fn frame_covers(frame: Seq<i32>, usable: int, radius: int, bin: int) -> bool {
    frame_valid(frame, usable, radius) && 0 <= bin < frame_scores(frame, usable, radius).len()
}

/// A valid frame that reads bit position `bin` as 1.
pub open spec fn frame_votes_one(frame: Seq<i32>, usable: int, radius: int, bin: int) -> bool {
    let scores = frame_scores(frame, usable, radius);
    frame_covers(frame, usable, radius, bin) && reads_as_one(
        scores[bin] as int,
        threshold_x8(scores),
        frame_inverted(scores),
    )
}

/// Number of valid frames.
pub open spec fn valid_count(frames: Seq<Seq<i32>>, usable: int, radius: int) -> nat
    decreases frames.len(),
{
    if frames.len() == 0 {
        0
    } else {
        valid_count(frames.drop_last(), usable, radius) + if frame_valid(
            frames.last(),
            usable,
            radius,
        ) {
            1nat
        } else {
            0nat
        }
    }
}

/// Number of valid frames that were read in inverted polarity.
pub open spec fn inverted_count(frames: Seq<Seq<i32>>, usable: int, radius: int) -> nat
    decreases frames.len(),
{
    if frames.len() == 0 {
        0
    } else {
        inverted_count(frames.drop_last(), usable, radius) + if frame_valid_inverted(
            frames.last(),
            usable,
            radius,
        ) {
            1nat
        } else {
            0nat
        }
    }
}

/// Number of valid frames that read bit position `bin` as 1.
pub open spec fn vote_count(frames: Seq<Seq<i32>>, usable: int, radius: int, bin: int) -> nat
    decreases frames.len(),
{
    if frames.len() == 0 {
        0
    } else {
        vote_count(frames.drop_last(), usable, radius, bin) + if frame_votes_one(
            frames.last(),
            usable,
            radius,
            bin,
        ) {
            1nat
        } else {
            0nat
        }
    }
}

/// The scores of bit position `bin` over the valid frames, in frame order.
pub open spec fn score_column(frames: Seq<Seq<i32>>, usable: int, radius: int, bin: int) -> Seq<
    i64,
>
    decreases frames.len(),
{
    if frames.len() == 0 {
        Seq::empty()
    } else if frame_covers(frames.last(), usable, radius, bin) {
        score_column(frames.drop_last(), usable, radius, bin).push(
            frame_scores(frames.last(), usable, radius)[bin],
        )
    } else {
        score_column(frames.drop_last(), usable, radius, bin)
    }
}

/// Number of elements of `column` that are at most `bound`.
pub open spec fn count_at_most(column: Seq<i64>, bound: int) -> nat
    decreases column.len(),
{
    if column.len() == 0 {
        0
    } else {
        count_at_most(column.drop_last(), bound) + if column.last() <= bound {
            1nat
        } else {
            0nat
        }
    }
}

/// `m` stands at position `len / 2` when `column` is put in ascending order:
/// it occurs in the column, at most `len / 2` elements are smaller, and more
/// than `len / 2` are no larger.
pub open spec fn is_median(column: Seq<i64>, m: i64) -> bool {
    &&& column.contains(m)
    &&& count_at_most(column, m - 1) <= column.len() / 2
    &&& column.len() / 2 < count_at_most(column, m as int)
}

/// The median of a column; of an even number of elements, the upper of the
/// two middle ones. The median of no elements is 0.
pub open spec fn median(column: Seq<i64>) -> i64 {
    if column.len() == 0 {
        0
    } else {
        choose|m: i64| is_median(column, m)
    }
}

/// The aggregated score of every bit position.
pub open spec fn aggregated_scores(frames: Seq<Seq<i32>>, usable: int, radius: int) -> Seq<i64> {
    Seq::new(usable as nat, |bin: int| median(score_column(frames, usable, radius, bin)))
}

/// The vote count of every bit position.
pub open spec fn aggregated_votes(frames: Seq<Seq<i32>>, usable: int, radius: int) -> Seq<usize> {
    Seq::new(usable as nat, |bin: int| vote_count(frames, usable, radius, bin) as usize)
}

/// Global polarity is inverted when more than half of the valid frames were
/// read inverted.
pub open spec fn majority_inverted(frames: Seq<Seq<i32>>, usable: int, radius: int) -> bool {
    2 * inverted_count(frames, usable, radius) > valid_count(frames, usable, radius)
}

/// What all frames together say about every bit position.
pub struct FrameSummary {
    /// Aggregated score of each bit position: the median over valid frames.
    pub scores: Vec<i64>,
    /// Number of valid frames that read each bit position as 1.
    pub votes: Vec<usize>,
    /// Number of valid frames.
    pub valid_frames: usize,
    /// Number of skipped frames.
    pub skipped_frames: usize,
    /// Whether more than half of the valid frames were read inverted.
    pub inverted: bool,
}

impl FrameSummary {
    /// The summary is the one that `frames` give for `usable` bit positions
    /// and neighbourhood radius `radius`.
    pub open spec fn summarises(self, frames: Seq<Seq<i32>>, usable: int, radius: int) -> bool {
        &&& self.scores@ == aggregated_scores(frames, usable, radius)
        &&& self.votes@ == aggregated_votes(frames, usable, radius)
        &&& self.valid_frames == valid_count(frames, usable, radius)
        &&& self.valid_frames + self.skipped_frames == frames.len()
        &&& self.inverted == majority_inverted(frames, usable, radius)
    }
}

/// The counts over one more frame.
pub proof fn lemma_counts_step(frames: Seq<Seq<i32>>, k: int, usable: int, radius: int)
    requires
        0 <= k < frames.len(),
    ensures
        valid_count(frames.take(k + 1), usable, radius) == valid_count(
            frames.take(k),
            usable,
            radius,
        ) + if frame_valid(frames[k], usable, radius) {
            1nat
        } else {
            0nat
        },
        inverted_count(frames.take(k + 1), usable, radius) == inverted_count(
            frames.take(k),
            usable,
            radius,
        ) + if frame_valid_inverted(frames[k], usable, radius) {
            1nat
        } else {
            0nat
        },
{
    assert(frames.take(k + 1).drop_last() =~= frames.take(k));
    assert(frames.take(k + 1).last() == frames[k]);
}

/// The statistics of one bit position over one more frame.
pub proof fn lemma_column_step(frames: Seq<Seq<i32>>, k: int, usable: int, radius: int, bin: int)
    requires
        0 <= k < frames.len(),
    ensures
        vote_count(frames.take(k + 1), usable, radius, bin) == vote_count(
            frames.take(k),
            usable,
            radius,
            bin,
        ) + if frame_votes_one(frames[k], usable, radius, bin) {
            1nat
        } else {
            0nat
        },
        score_column(frames.take(k + 1), usable, radius, bin) == if frame_covers(
            frames[k],
            usable,
            radius,
            bin,
        ) {
            score_column(frames.take(k), usable, radius, bin).push(
                frame_scores(frames[k], usable, radius)[bin],
            )
        } else {
            score_column(frames.take(k), usable, radius, bin)
        },
{
    assert(frames.take(k + 1).drop_last() =~= frames.take(k));
    assert(frames.take(k + 1).last() == frames[k]);
}

/// No count exceeds the number of frames, and no more frames are inverted
/// than are valid.
pub proof fn lemma_counts_bounded(frames: Seq<Seq<i32>>, usable: int, radius: int, bin: int)
    ensures
        inverted_count(frames, usable, radius) <= valid_count(frames, usable, radius),
        valid_count(frames, usable, radius) <= frames.len(),
        vote_count(frames, usable, radius, bin) <= valid_count(frames, usable, radius),
        score_column(frames, usable, radius, bin).len() <= valid_count(frames, usable, radius),
    decreases frames.len(),
{
    if frames.len() > 0 {
        lemma_counts_bounded(frames.drop_last(), usable, radius, bin);
    }
}

/// Counting up to a larger bound counts no fewer elements.
pub proof fn lemma_count_at_most_monotonic(column: Seq<i64>, low: int, high: int)
    requires
        low <= high,
    ensures
        count_at_most(column, low) <= count_at_most(column, high) <= column.len(),
    decreases column.len(),
{
    if column.len() > 0 {
        lemma_count_at_most_monotonic(column.drop_last(), low, high);
    }
}

/// A column has at most one median.
pub proof fn lemma_median_unique(column: Seq<i64>, a: i64, b: i64)
    requires
        is_median(column, a),
        is_median(column, b),
    ensures
        a == b,
{
    if a < b {
        lemma_count_at_most_monotonic(column, a as int, b - 1);
    } else if b < a {
        lemma_count_at_most_monotonic(column, b as int, a - 1);
    }
}

/// Whatever satisfies `is_median` is the median.
pub proof fn lemma_median_is(column: Seq<i64>, m: i64)
    requires
        is_median(column, m),
    ensures
        median(column) == m,
{
    assert(column.len() > 0);
    lemma_median_unique(column, m, median(column));
}

/// Taking one element out of a column lowers the count by one exactly when
/// that element was counted.
proof fn lemma_count_at_most_remove(column: Seq<i64>, i: int, bound: int)
    requires
        0 <= i < column.len(),
    ensures
        count_at_most(column, bound) == count_at_most(column.remove(i), bound) + if column[i]
            <= bound {
            1nat
        } else {
            0nat
        },
    decreases column.len(),
{
    if i == column.len() - 1 {
        assert(column.remove(i) =~= column.drop_last());
    } else {
        lemma_count_at_most_remove(column.drop_last(), i, bound);
        assert(column.remove(i).drop_last() =~= column.drop_last().remove(i));
        assert(column.remove(i).last() == column.last());
    }
}

/// Two columns that hold the same elements, in whatever order, count alike.
proof fn lemma_count_at_most_permutation(a: Seq<i64>, b: Seq<i64>, bound: int)
    requires
        a.to_multiset() == b.to_multiset(),
    ensures
        count_at_most(a, bound) == count_at_most(b, bound),
    decreases a.len(),
{
    a.to_multiset_ensures();
    b.to_multiset_ensures();
    if a.len() == 0 {
        assert(b.len() == 0);
    } else {
        let x = a.last();
        assert(a.contains(x));
        assert(b.to_multiset().count(x) > 0);
        assert(b.contains(x));
        let j = choose|j: int| 0 <= j < b.len() && b[j] == x;
        let a1 = a.drop_last();
        let b1 = b.remove(j);
        assert(a1 =~= a.remove(a.len() - 1));
        assert(a1.to_multiset() =~= a.to_multiset().remove(x));
        assert(b1.to_multiset() =~= b.to_multiset().remove(x));
        lemma_count_at_most_permutation(a1, b1, bound);
        lemma_count_at_most_remove(b, j, bound);
    }
}

/// Where every element from position `k` on exceeds `bound`, at most `k`
/// elements are counted.
proof fn lemma_count_at_most_upper(column: Seq<i64>, k: int, bound: int)
    requires
        0 <= k <= column.len(),
        forall|i: int| k <= i < column.len() ==> column[i] > bound,
    ensures
        count_at_most(column, bound) <= k,
    decreases column.len(),
{
    if column.len() > k {
        lemma_count_at_most_upper(column.drop_last(), k, bound);
    } else {
        lemma_count_at_most_monotonic(column, bound, bound);
    }
}

/// Where every element before position `k` is at most `bound`, at least `k`
/// elements are counted.
proof fn lemma_count_at_most_lower(column: Seq<i64>, k: int, bound: int)
    requires
        0 <= k <= column.len(),
        forall|i: int| 0 <= i < k ==> column[i] <= bound,
    ensures
        count_at_most(column, bound) >= k,
    decreases column.len(),
{
    if column.len() > 0 {
        if column.len() > k {
            lemma_count_at_most_lower(column.drop_last(), k, bound);
        } else {
            lemma_count_at_most_lower(column.drop_last(), k - 1, bound);
        }
    }
}

/// Every column that is not empty has a median, and it is the element that
/// stands at position `len / 2` once the column is sorted.
pub proof fn lemma_median_is_middle_of_sorted(column: Seq<i64>)
    requires
        column.len() > 0,
    ensures
        is_median(column, median(column)),
        median(column) == column.sort_by(|a: i64, b: i64| a <= b)[column.len() as int / 2],
{
    let leq = |a: i64, b: i64| a <= b;
    assert(total_ordering(leq)) by {
        assert(reflexive(leq));
        assert(antisymmetric(leq));
        assert(transitive(leq));
        assert(strongly_connected(leq));
    }
    let sorted = column.sort_by(leq);
    column.lemma_sort_by_ensures(leq);
    sorted.to_multiset_ensures();
    column.to_multiset_ensures();
    assert(sorted.len() == column.len());
    let mid = column.len() as int / 2;
    let m = sorted[mid];
    assert forall|i: int| mid <= i < sorted.len() implies sorted[i] > m - 1 by {
        if mid < i {
            assert(leq(sorted[mid], sorted[i]));
        }
    }
    assert forall|i: int| 0 <= i < mid + 1 implies sorted[i] <= m by {
        if i < mid {
            assert(leq(sorted[i], sorted[mid]));
        }
    }
    lemma_count_at_most_upper(sorted, mid, m - 1);
    lemma_count_at_most_lower(sorted, mid + 1, m as int);
    lemma_count_at_most_permutation(sorted, column, m - 1);
    lemma_count_at_most_permutation(sorted, column, m as int);
    assert(sorted.contains(m));
    assert(sorted.to_multiset().count(m) > 0);
    assert(column.to_multiset().count(m) > 0);
    assert(column.contains(m));
    lemma_median_is(column, m);
}

/// `<[i64]>::select_nth_unstable` of the standard library: reorders
/// `values` so that the element at `index` is the one that would stand there
/// if the whole were sorted, with nothing larger before it and nothing
/// smaller after it, and returns that element. The call panics when `index`
/// is out of bounds, so that is ruled out.
#[verifier::external_body]
fn select_nth(values: &mut Vec<i64>, index: usize) -> (nth: i64)
    requires
        index < old(values).len(),
    ensures
        final(values)@.to_multiset() == old(values)@.to_multiset(),
        final(values)@.len() == old(values)@.len(),
        nth == final(values)@[index as int],
        forall|i: int| 0 <= i < index ==> final(values)@[i] <= nth,
        forall|i: int| index < i < final(values)@.len() ==> nth <= final(values)@[i],
{
    *values.select_nth_unstable(index).1
}

/// The median of a column of scores.
pub fn column_median(column: &Vec<i64>) -> (m: i64)
    ensures
        m == median(column@),
{
    if column.len() == 0 {
        return 0;
    }
    let mut work: Vec<i64> = column.clone();
    let mid: usize = work.len() / 2;
    let m = select_nth(&mut work, mid);
    proof {
        let parted = work@;
        lemma_count_at_most_upper(parted, mid as int, m - 1);
        lemma_count_at_most_lower(parted, mid + 1, m as int);
        lemma_count_at_most_permutation(parted, column@, m - 1);
        lemma_count_at_most_permutation(parted, column@, m as int);
        parted.to_multiset_ensures();
        column@.to_multiset_ensures();
        assert(parted.contains(m));
        assert(parted.to_multiset().count(m) > 0);
        assert(column@.to_multiset().count(m) > 0);
        assert(column@.contains(m));
        lemma_median_is(column@, m);
    }
    m
}

/// The eligible bins of a frame, as a slice of it.
fn eligible_slice(frame: &Vec<i32>, usable_bins: usize) -> (bins: &[i32])
    ensures
        bins@ == eligible_bins(frame@, usable_bins as int),
{
    let len: usize = frame.len();
    if len <= START_BIN || usable_bins == 0 {
        let empty = slice_subrange(frame.as_slice(), 0, 0);
        assert(empty@ =~= Seq::<i32>::empty());
        empty
    } else if len - START_BIN <= usable_bins {
        slice_subrange(frame.as_slice(), START_BIN, len)
    } else {
        slice_subrange(frame.as_slice(), START_BIN, START_BIN + usable_bins)
    }
}

/// Adds the scores and votes of one valid frame to the per-bin statistics.
fn record_frame(
    columns: &mut Vec<Vec<i64>>,
    votes: &mut Vec<usize>,
    scores: &Vec<i64>,
    pilot: &FramePilot,
    Ghost(frames): Ghost<Seq<Seq<i32>>>,
    Ghost(k): Ghost<int>,
    Ghost(usable): Ghost<int>,
    Ghost(radius): Ghost<int>,
)
    requires
        0 <= k < frames.len(),
        frames.len() <= usize::MAX,
        old(columns).len() == usable,
        old(votes).len() == usable,
        scores@ == frame_scores(frames[k], usable, radius),
        frame_valid(frames[k], usable, radius),
        pilot.threshold_x8 == threshold_x8(scores@),
        pilot.inverted == frame_inverted(scores@),
        forall|bin: int|
            0 <= bin < usable ==> (#[trigger] old(columns)[bin])@ == score_column(
                frames.take(k),
                usable,
                radius,
                bin,
            ),
        forall|bin: int|
            0 <= bin < usable ==> #[trigger] old(votes)[bin] == vote_count(
                frames.take(k),
                usable,
                radius,
                bin,
            ),
    ensures
        final(columns).len() == usable,
        final(votes).len() == usable,
        forall|bin: int|
            0 <= bin < usable ==> (#[trigger] final(columns)[bin])@ == score_column(
                frames.take(k + 1),
                usable,
                radius,
                bin,
            ),
        forall|bin: int|
            0 <= bin < usable ==> #[trigger] final(votes)[bin] == vote_count(
                frames.take(k + 1),
                usable,
                radius,
                bin,
            ),
{
    let count: usize = scores.len();
    assert(count <= usable) by {
        assert(eligible_bins(frames[k], usable).len() <= usable);
    }
    let mut idx: usize = 0;
    while idx < count
        invariant
            idx <= count <= usable,
            count == scores@.len(),
            0 <= k < frames.len(),
            frames.len() <= usize::MAX,
            columns.len() == usable,
            votes.len() == usable,
            scores@ == frame_scores(frames[k], usable, radius),
            frame_valid(frames[k], usable, radius),
            pilot.threshold_x8 == threshold_x8(scores@),
            pilot.inverted == frame_inverted(scores@),
            forall|bin: int|
                0 <= bin < idx ==> (#[trigger] columns[bin])@ == score_column(
                    frames.take(k + 1),
                    usable,
                    radius,
                    bin,
                ),
            forall|bin: int|
                idx <= bin < usable ==> (#[trigger] columns[bin])@ == score_column(
                    frames.take(k),
                    usable,
                    radius,
                    bin,
                ),
            forall|bin: int|
                0 <= bin < idx ==> #[trigger] votes[bin] == vote_count(
                    frames.take(k + 1),
                    usable,
                    radius,
                    bin,
                ),
            forall|bin: int|
                idx <= bin < usable ==> #[trigger] votes[bin] == vote_count(
                    frames.take(k),
                    usable,
                    radius,
                    bin,
                ),
        decreases count - idx,
    {
        let score: i64 = scores[idx];
        proof {
            lemma_column_step(frames, k, usable, radius, idx as int);
            lemma_counts_bounded(frames.take(k), usable, radius, idx as int);
            assert(frame_covers(frames[k], usable, radius, idx as int));
        }
        columns[idx].push(score);
        let wide: i128 = 8 * (score as i128);
        let vote_one: bool = if pilot.inverted {
            wide <= pilot.threshold_x8
        } else {
            wide >= pilot.threshold_x8
        };
        if vote_one {
            let seen: usize = votes[idx];
            votes.set(idx, seen + 1);
        }
        idx += 1;
    }
    proof {
        assert forall|bin: int| 0 <= bin < usable implies (#[trigger] columns[bin])@
            == score_column(frames.take(k + 1), usable, radius, bin) by {
            lemma_column_step(frames, k, usable, radius, bin);
        }
        assert forall|bin: int| 0 <= bin < usable implies #[trigger] votes[bin] == vote_count(
            frames.take(k + 1),
            usable,
            radius,
            bin,
        ) by {
            lemma_column_step(frames, k, usable, radius, bin);
        }
    }
}

/// Scores and calibrates every frame, and aggregates the valid ones.
///
/// Each element of `frames` holds the log-magnitudes of one frame's spectrum,
/// from bin 0 on. `usable_bins` is the number of bit positions, and
/// `window_radius` the reach of the scoring neighbourhood. A frame with
/// fewer than eight eligible bins is skipped.
///
/// Fails when no frame is valid.
pub fn summarise_frames(frames: &Vec<Vec<i32>>, usable_bins: usize, window_radius: usize) -> (result:
    Result<FrameSummary, DecodeError>)
    ensures
        match result {
            Ok(summary) => {
                &&& valid_count(spectra(frames@), usable_bins as int, window_radius as int) > 0
                &&& summary.summarises(spectra(frames@), usable_bins as int, window_radius as int)
            },
            Err(error) => {
                &&& error == DecodeError::NoReliableFrames
                &&& valid_count(spectra(frames@), usable_bins as int, window_radius as int) == 0
            },
        },
{
    let ghost all = spectra(frames@);
    let ghost usable = usable_bins as int;
    let ghost radius = window_radius as int;
    let total: usize = frames.len();

    let mut columns: Vec<Vec<i64>> = Vec::new();
    let mut votes: Vec<usize> = Vec::new();
    let mut bin: usize = 0;
    while bin < usable_bins
        invariant
            bin <= usable_bins,
            columns.len() == bin,
            votes.len() == bin,
            forall|b: int| 0 <= b < bin ==> (#[trigger] columns[b])@ == Seq::<i64>::empty(),
            forall|b: int| 0 <= b < bin ==> #[trigger] votes[b] == 0,
        decreases usable_bins - bin,
    {
        columns.push(Vec::new());
        votes.push(0);
        bin += 1;
    }

    let mut valid_frames: usize = 0;
    let mut inverted_frames: usize = 0;
    let mut k: usize = 0;
    assert(all.take(0) =~= Seq::<Seq<i32>>::empty());
    while k < total
        invariant
            k <= total,
            total == frames@.len(),
            all == spectra(frames@),
            usable == usable_bins as int,
            radius == window_radius as int,
            columns.len() == usable,
            votes.len() == usable,
            valid_frames == valid_count(all.take(k as int), usable, radius),
            inverted_frames == inverted_count(all.take(k as int), usable, radius),
            forall|b: int|
                0 <= b < usable ==> (#[trigger] columns[b])@ == score_column(
                    all.take(k as int),
                    usable,
                    radius,
                    b,
                ),
            forall|b: int|
                0 <= b < usable ==> #[trigger] votes[b] == vote_count(
                    all.take(k as int),
                    usable,
                    radius,
                    b,
                ),
        decreases total - k,
    {
        let frame: &Vec<i32> = &frames[k];
        proof {
            lemma_counts_step(all, k as int, usable, radius);
            lemma_counts_bounded(all.take(k as int), usable, radius, 0);
            assert(all[k as int] == frame@);
        }
        let bins = eligible_slice(frame, usable_bins);
        let mut accepted: bool = false;
        if bins.len() >= PILOT_BITS {
            let scores = spectral_scores(bins, window_radius);
            match frame_pilot_stats(scores.as_slice()) {
                Some(pilot) => {
                    if pilot.matches >= MIN_PILOT_MATCHES {
                        accepted = true;
                        valid_frames += 1;
                        if pilot.inverted {
                            inverted_frames += 1;
                        }
                        record_frame(
                            &mut columns,
                            &mut votes,
                            &scores,
                            &pilot,
                            Ghost(all),
                            Ghost(k as int),
                            Ghost(usable),
                            Ghost(radius),
                        );
                    }
                },
                None => {},
            }
        }
        proof {
            if !accepted {
                assert(!frame_valid(all[k as int], usable, radius));
                assert forall|b: int| 0 <= b < usable implies (#[trigger] columns[b])@
                    == score_column(all.take(k + 1), usable, radius, b) by {
                    lemma_column_step(all, k as int, usable, radius, b);
                }
                assert forall|b: int| 0 <= b < usable implies #[trigger] votes[b] == vote_count(
                    all.take(k + 1),
                    usable,
                    radius,
                    b,
                ) by {
                    lemma_column_step(all, k as int, usable, radius, b);
                }
            }
        }
        k += 1;
    }
    assert(all.take(k as int) =~= all);

    if valid_frames == 0 {
        return Err(DecodeError::NoReliableFrames);
    }
    let mut scores: Vec<i64> = Vec::new();
    let mut b: usize = 0;
    while b < usable_bins
        invariant
            b <= usable_bins,
            usable == usable_bins as int,
            columns.len() == usable,
            scores@ =~= aggregated_scores(all, usable, radius).take(b as int),
            forall|i: int|
                0 <= i < usable ==> (#[trigger] columns[i])@ == score_column(
                    all,
                    usable,
                    radius,
                    i,
                ),
        decreases usable_bins - b,
    {
        scores.push(column_median(&columns[b]));
        b += 1;
    }
    proof {
        lemma_counts_bounded(all, usable, radius, 0);
        assert(scores@ =~= aggregated_scores(all, usable, radius));
        assert(votes@ =~= aggregated_votes(all, usable, radius)) by {
            assert forall|i: int| 0 <= i < usable implies votes@[i] == aggregated_votes(
                all,
                usable,
                radius,
            )[i] by {
                lemma_counts_bounded(all, usable, radius, i);
            }
        }
    }
    let inverted: bool = inverted_frames > valid_frames - inverted_frames;
    Ok(
        FrameSummary {
            scores,
            votes,
            valid_frames,
            skipped_frames: total - valid_frames,
            inverted,
        },
    )
}

} // verus!
