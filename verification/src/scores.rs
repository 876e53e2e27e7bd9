//! Neighbour-relative spectral scores.
//!
//! A frame arrives as one log-magnitude per frequency bin, in fixed point:
//! an `i32` in whatever unit the caller quantised to. The score of a bin is
//! its log-magnitude less a local baseline, the mean log-magnitude of the
//! bins within `radius` positions on either side, the bin itself left out.
//! Near either edge the neighbourhood is cut off at the edge. The mean is
//! rounded down to the fixed-point grid; a bin without neighbours scores 0.
//!
//! Scores are relative: raising every log-magnitude of a frame by the same
//! amount, as a change of gain does, changes no score.

use vstd::arithmetic::div_mod::*;
use vstd::prelude::*;

verus! {

/// First bin of the neighbourhood of bin `i`.
pub open spec fn window_start(i: int, radius: int) -> int {
    if i >= radius {
        i - radius
    } else {
        0
    }
}

/// One past the last bin of the neighbourhood of bin `i`, among `len` bins.
pub open spec fn window_end(i: int, radius: int, len: int) -> int {
    if i + radius + 1 <= len {
        i + radius + 1
    } else {
        len
    }
}

/// Number of neighbours of bin `i`: the bins of its neighbourhood other than
/// itself.
pub open spec fn neighbour_count(i: int, radius: int, len: int) -> int {
    window_end(i, radius, len) - window_start(i, radius) - 1
}

/// Sum of `values[lo..hi]`.
pub open spec fn range_sum(values: Seq<i32>, lo: int, hi: int) -> int
    decreases hi - lo,
{
    if hi <= lo {
        0
    } else {
        range_sum(values, lo, hi - 1) + values[hi - 1]
    }
}

/// The local baseline of bin `i`: the mean of its neighbours, rounded down.
pub open spec fn baseline(log_mags: Seq<i32>, i: int, radius: int) -> int {
    let lo = window_start(i, radius);
    let hi = window_end(i, radius, log_mags.len() as int);
    (range_sum(log_mags, lo, hi) - log_mags[i]) / neighbour_count(i, radius, log_mags.len() as int)
}

/// The score of bin `i`: its log-magnitude less its baseline, or 0 where it
/// has no neighbour.
pub open spec fn score_at(log_mags: Seq<i32>, i: int, radius: int) -> int {
    if neighbour_count(i, radius, log_mags.len() as int) == 0 {
        0
    } else {
        log_mags[i] - baseline(log_mags, i, radius)
    }
}

/// The scores of all bins of a frame.
pub open spec fn spectral_scores_of(log_mags: Seq<i32>, radius: int) -> Seq<i64> {
    Seq::new(log_mags.len(), |i: int| score_at(log_mags, i, radius) as i64)
}

/// A range sum lies between the range's length times the least and the
/// greatest `i32`.
pub proof fn lemma_range_sum_bounds(values: Seq<i32>, lo: int, hi: int)
    requires
        0 <= lo <= hi <= values.len(),
    ensures
        (hi - lo) * (-0x8000_0000) <= range_sum(values, lo, hi) <= (hi - lo) * 0x7fff_ffff,
    decreases hi - lo,
{
    if lo < hi {
        lemma_range_sum_bounds(values, lo, hi - 1);
    }
}

/// A range sum splits at any point inside the range.
pub proof fn lemma_range_sum_split(values: Seq<i32>, lo: int, mid: int, hi: int)
    requires
        lo <= mid <= hi,
    ensures
        range_sum(values, lo, hi) == range_sum(values, lo, mid) + range_sum(values, mid, hi),
    decreases hi - mid,
{
    if mid < hi {
        lemma_range_sum_split(values, lo, mid, hi - 1);
    }
}

/// The baseline of a bin lies within the range of `i32`, and so its score
/// lies within the range of `i64`.
pub proof fn lemma_score_range(log_mags: Seq<i32>, i: int, radius: int)
    requires
        0 <= i < log_mags.len(),
        0 <= radius,
    ensures
        -0xffff_ffff <= score_at(log_mags, i, radius) <= 0xffff_ffff,
        score_at(log_mags, i, radius) as i64 == score_at(log_mags, i, radius),
{
    let len = log_mags.len() as int;
    let lo = window_start(i, radius);
    let hi = window_end(i, radius, len);
    let n = neighbour_count(i, radius, len);
    if n != 0 {
        let others = range_sum(log_mags, lo, hi) - log_mags[i];
        lemma_range_sum_split(log_mags, lo, i, hi);
        lemma_range_sum_split(log_mags, i, i + 1, hi);
        assert(range_sum(log_mags, i, i + 1) == log_mags[i]) by {
            assert(range_sum(log_mags, i, i) == 0);
        }
        lemma_range_sum_bounds(log_mags, lo, i);
        lemma_range_sum_bounds(log_mags, i + 1, hi);
        assert(others == range_sum(log_mags, lo, i) + range_sum(log_mags, i + 1, hi));
        assert(n * (-0x8000_0000) <= others <= n * 0x7fff_ffff) by (nonlinear_arith)
            requires
                others == range_sum(log_mags, lo, i) + range_sum(log_mags, i + 1, hi),
                (i - lo) * (-0x8000_0000) <= range_sum(log_mags, lo, i) <= (i - lo) * 0x7fff_ffff,
                (hi - (i + 1)) * (-0x8000_0000) <= range_sum(log_mags, i + 1, hi) <= (hi - (i + 1))
                    * 0x7fff_ffff,
                n == (i - lo) + (hi - (i + 1)),
        ;
        lemma_mean_within(others, n, -0x8000_0000, 0x7fff_ffff);
    }
}

/// Scores do not see gain: a frame whose log-magnitudes are all raised by
/// `offset` has the scores of the frame as it was.
pub proof fn lemma_scores_ignore_gain(log_mags: Seq<i32>, raised: Seq<i32>, offset: int, radius: int)
    requires
        0 <= radius,
        raised.len() == log_mags.len(),
        forall|i: int| 0 <= i < log_mags.len() ==> raised[i] == log_mags[i] + offset,
    ensures
        spectral_scores_of(raised, radius) == spectral_scores_of(log_mags, radius),
{
    let len = log_mags.len() as int;
    assert forall|i: int| 0 <= i < len implies spectral_scores_of(raised, radius)[i]
        == spectral_scores_of(log_mags, radius)[i] by {
        let lo = window_start(i, radius);
        let hi = window_end(i, radius, len);
        let n = neighbour_count(i, radius, len);
        if n != 0 {
            lemma_raised_range_sum(log_mags, raised, offset, lo, hi);
            let others = range_sum(log_mags, lo, hi) - log_mags[i];
            assert(range_sum(raised, lo, hi) - raised[i] == n * offset + others) by (nonlinear_arith)
                requires
                    range_sum(raised, lo, hi) == range_sum(log_mags, lo, hi) + (hi - lo) * offset,
                    raised[i] == log_mags[i] + offset,
                    others == range_sum(log_mags, lo, hi) - log_mags[i],
                    n == hi - lo - 1,
            ;
            lemma_mean_shift(offset, others, n);
        }
    }
    assert(spectral_scores_of(raised, radius) =~= spectral_scores_of(log_mags, radius));
}

proof fn lemma_raised_range_sum(values: Seq<i32>, raised: Seq<i32>, offset: int, lo: int, hi: int)
    requires
        0 <= lo <= hi <= values.len(),
        raised.len() == values.len(),
        forall|i: int| 0 <= i < values.len() ==> raised[i] == values[i] + offset,
    ensures
        range_sum(raised, lo, hi) == range_sum(values, lo, hi) + (hi - lo) * offset,
    decreases hi - lo,
{
    if lo < hi {
        lemma_raised_range_sum(values, raised, offset, lo, hi - 1);
        assert((hi - 1 - lo) * offset + offset == (hi - lo) * offset) by (nonlinear_arith);
    } else {
        assert((hi - lo) * offset == 0) by (nonlinear_arith)
            requires
                hi == lo,
        ;
    }
}

/// Adding `n` times `offset` to a total raises its mean over `n`, rounded
/// down, by `offset`.
proof fn lemma_mean_shift(offset: int, total: int, n: int)
    requires
        n > 0,
    ensures
        (n * offset + total) / n == offset + total / n,
{
    lemma_fundamental_div_mod(total, n);
    lemma_mod_bound(total, n);
    let q = total / n;
    let r = total % n;
    assert(n * offset + total == (offset + q) * n + r) by (nonlinear_arith)
        requires
            total == n * q + r,
    ;
    lemma_fundamental_div_mod_converse(n * offset + total, n, offset + q, r);
}

/// The mean of `n` values that lie between `low` and `high`, rounded down,
/// lies between `low` and `high`.
proof fn lemma_mean_within(total: int, n: int, low: int, high: int)
    requires
        n > 0,
        n * low <= total <= n * high,
    ensures
        low <= total / n <= high,
{
    lemma_fundamental_div_mod(total, n);
    lemma_mod_bound(total, n);
    let q = total / n;
    let r = total % n;
    assert(q >= low) by (nonlinear_arith)
        requires
            n > 0,
            n * low <= total,
            total == n * q + r,
            0 <= r < n,
    ;
    assert(q <= high) by (nonlinear_arith)
        requires
            n > 0,
            total <= n * high,
            total == n * q + r,
            0 <= r < n,
    ;
}

/// The mean of `n` copies of one value is that value.
pub proof fn lemma_mean_of_equal(value: int, n: int)
    requires
        n > 0,
    ensures
        (n * value) / n == value,
{
    assert(n * value == value * n + 0) by (nonlinear_arith);
    lemma_fundamental_div_mod_converse(n * value, n, value, 0);
}

/// A frame whose bins all hold the same log-magnitude scores 0 everywhere.
pub proof fn lemma_flat_frame_scores_zero(log_mags: Seq<i32>, radius: int)
    requires
        0 <= radius,
        forall|i: int, j: int|
            0 <= i < log_mags.len() && 0 <= j < log_mags.len() ==> log_mags[i] == log_mags[j],
    ensures
        forall|i: int|
            0 <= i < log_mags.len() ==> #[trigger] spectral_scores_of(log_mags, radius)[i] == 0,
{
    let len = log_mags.len() as int;
    assert forall|i: int| 0 <= i < len implies #[trigger] spectral_scores_of(log_mags, radius)[i]
        == 0 by {
        let lo = window_start(i, radius);
        let hi = window_end(i, radius, len);
        let n = neighbour_count(i, radius, len);
        let c = log_mags[i] as int;
        if n != 0 {
            lemma_flat_range_sum(log_mags, lo, hi, c);
            assert((hi - lo) * c - c == n * c) by (nonlinear_arith)
                requires
                    n == hi - lo - 1,
            ;
            lemma_mean_of_equal(c, n);
        }
    }
}

proof fn lemma_flat_range_sum(values: Seq<i32>, lo: int, hi: int, c: int)
    requires
        0 <= lo <= hi <= values.len(),
        forall|i: int| 0 <= i < values.len() ==> values[i] == c,
    ensures
        range_sum(values, lo, hi) == (hi - lo) * c,
    decreases hi - lo,
{
    if lo < hi {
        lemma_flat_range_sum(values, lo, hi - 1, c);
        assert((hi - 1 - lo) * c + c == (hi - lo) * c) by (nonlinear_arith);
    } else {
        assert((hi - lo) * c == 0) by (nonlinear_arith)
            requires
                hi == lo,
        ;
    }
}

/// `a / n` rounded down, for a positive divisor.
fn div_floor(a: i128, n: i128) -> (q: i128)
    requires
        n > 0,
        a > i128::MIN,
    ensures
        q == (a as int) / (n as int),
{
    let q: i128 = a / n;
    let r: i128 = a % n;
    proof {
        if a >= 0 {
            lemma_fundamental_div_mod(a as int, n as int);
        } else {
            let m = -(a as int);
            let mq = m / (n as int);
            let mr = m % (n as int);
            lemma_fundamental_div_mod(m, n as int);
            lemma_mod_pos_bound(m, n as int);
            assert(q == -mq);
            assert(r == -mr);
            if mr == 0 {
                assert(a == q * n + 0) by (nonlinear_arith)
                    requires
                        m == n * mq + mr,
                        mr == 0,
                        m == -a,
                        q == -mq,
                ;
                lemma_fundamental_div_mod_converse(a as int, n as int, q as int, 0);
            } else {
                assert(a == (q - 1) * n + (n - mr)) by (nonlinear_arith)
                    requires
                        m == n * mq + mr,
                        m == -a,
                        q == -mq,
                ;
                lemma_fundamental_div_mod_converse(a as int, n as int, q - 1, n - mr);
            }
        }
    }
    if r < 0 {
        q - 1
    } else {
        q
    }
}

/// Scores every bin of a frame against its neighbours.
///
/// `log_mags` holds the log-magnitudes of consecutive bins, and
/// `window_radius` says how far the neighbourhood reaches on either side.
pub fn spectral_scores(log_mags: &[i32], window_radius: usize) -> (scores: Vec<i64>)
    ensures
        scores@ == spectral_scores_of(log_mags@, window_radius as int),
{
    let len: usize = log_mags.len();
    let ghost radius = window_radius as int;
    let ghost want = spectral_scores_of(log_mags@, radius);
    let mut scores: Vec<i64> = Vec::new();
    let mut lo: usize = 0;
    let mut hi: usize = 0;
    let mut sum: i128 = 0;
    let mut i: usize = 0;
    while i < len
        invariant
            i <= len,
            len == log_mags@.len(),
            radius == window_radius as int,
            want == spectral_scores_of(log_mags@, radius),
            lo <= hi <= len,
            lo <= window_start(i as int, radius),
            hi <= window_end(i as int, radius, len as int) || i == len,
            sum == range_sum(log_mags@, lo as int, hi as int),
            scores@ =~= want.take(i as int),
        decreases len - i,
    {
        let end: usize = if window_radius >= len - i - 1 {
            len
        } else {
            i + window_radius + 1
        };
        let start: usize = if i >= window_radius {
            i - window_radius
        } else {
            0
        };
        assert(end == window_end(i as int, radius, len as int));
        assert(start == window_start(i as int, radius));
        while hi < end
            invariant
                lo <= hi <= end <= len,
                len == log_mags@.len(),
                sum == range_sum(log_mags@, lo as int, hi as int),
            decreases end - hi,
        {
            proof {
                lemma_range_sum_bounds(log_mags@, lo as int, hi as int);
            }
            sum = sum + log_mags[hi] as i128;
            hi += 1;
        }
        while lo < start
            invariant
                lo <= start <= i < hi,
                hi <= len,
                len == log_mags@.len(),
                sum == range_sum(log_mags@, lo as int, hi as int),
            decreases start - lo,
        {
            proof {
                lemma_range_sum_bounds(log_mags@, lo as int, hi as int);
                lemma_range_sum_split(log_mags@, lo as int, lo + 1, hi as int);
                assert(range_sum(log_mags@, lo as int, lo + 1) == log_mags@[lo as int]) by {
                    assert(range_sum(log_mags@, lo as int, lo as int) == 0);
                }
            }
            sum = sum - log_mags[lo] as i128;
            lo += 1;
        }
        let neighbours: usize = hi - lo - 1;
        proof {
            lemma_score_range(log_mags@, i as int, radius);
            lemma_range_sum_bounds(log_mags@, lo as int, hi as int);
        }
        let value: i32 = log_mags[i];
        if neighbours == 0 {
            scores.push(0);
        } else {
            let mean: i128 = div_floor(sum - value as i128, neighbours as i128);
            assert(mean == baseline(log_mags@, i as int, radius));
            let score: i128 = value as i128 - mean;
            scores.push(score as i64);
        }
        i += 1;
    }
    scores
}

} // verus!
