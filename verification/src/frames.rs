//! Cutting a sample stream into frames, and sizing the transform of a frame.
//!
//! A frame is a run of consecutive samples of fixed duration. Frames follow
//! one another without gap or overlap; the last one may be shorter. Each
//! frame is transformed at the smallest power of two that holds it, and at
//! least 2, after padding with zeros. A real transform of that size yields
//! half as many bins plus one.

use vstd::arithmetic::power2::*;
use vstd::prelude::*;

verus! {

/// The first frequency bin that carries a bit. Bins below it, the constant
/// component among them, are never touched and never scored.
pub const START_BIN: usize = 48;

/// Duration, in milliseconds, of the frames that the decoder works on.
pub const DECODE_FRAME_MS: u32 = 32;

/// Samples per frame: the sample rate times the duration, rounded to the
/// nearest whole number (halves upward), and at least 1.
pub open spec fn frame_length(sample_rate: int, frame_ms: int) -> int {
    let rounded = (sample_rate * frame_ms + 500) / 1000;
    if rounded < 1 {
        1
    } else {
        rounded
    }
}

/// Doubles `p` until it reaches `target`.
pub open spec fn doubled_up_to(p: int, target: int) -> int
    decreases
            (if target > p {
                target - p
            } else {
                0
            }),
{
    if p >= target || p <= 0 {
        p
    } else {
        doubled_up_to(2 * p, target)
    }
}

/// The transform size for a frame of `frame_len` samples: the smallest power
/// of two that is at least `frame_len` and at least 2.
pub open spec fn transform_size(frame_len: int) -> int {
    doubled_up_to(2, frame_len)
}

/// Number of bins in the spectrum of a real transform of size `fft_len`.
pub open spec fn spectrum_bins(fft_len: int) -> int {
    fft_len / 2 + 1
}

/// Number of frames that `total` samples fall into.
pub open spec fn frame_count(total: int, frame_len: int) -> int {
    (total + frame_len - 1) / frame_len
}

/// Index of the first sample of frame `index`.
pub open spec fn frame_start(frame_len: int, index: int) -> int {
    index * frame_len
}

/// One past the index of the last sample of frame `index`.
pub open spec fn frame_end(total: int, frame_len: int, index: int) -> int {
    if (index + 1) * frame_len <= total {
        (index + 1) * frame_len
    } else {
        total
    }
}

/// `doubled_up_to` returns a power of two when it starts from one; the
/// result reaches the target, and half of it does not unless it is the
/// starting value.
pub proof fn lemma_doubled_up_to(p: int, target: int)
    requires
        is_pow2(p),
    ensures
        is_pow2(doubled_up_to(p, target)),
        doubled_up_to(p, target) >= p,
        doubled_up_to(p, target) >= target,
        doubled_up_to(p, target) == p || doubled_up_to(p, target) / 2 < target,
    decreases
            (if target > p {
                target - p
            } else {
                0
            }),
{
    assert(p >= 1) by {
        reveal(is_pow2);
    }
    if p >= target {
    } else {
        assert(is_pow2(2 * p)) by {
            reveal_with_fuel(is_pow2, 2);
        }
        lemma_doubled_up_to(2 * p, target);
    }
}

/// The transform size is the least power of two that is at least the frame
/// length and at least 2.
pub proof fn lemma_transform_size(frame_len: int)
    ensures
        is_pow2(transform_size(frame_len)),
        transform_size(frame_len) >= 2,
        transform_size(frame_len) >= frame_len,
        transform_size(frame_len) == 2 || transform_size(frame_len) / 2 < frame_len,
{
    assert(is_pow2(2)) by {
        reveal_with_fuel(is_pow2, 3);
    }
    lemma_doubled_up_to(2, frame_len);
}

/// Doubling from `2^e` stays at or below `2^limit` when the target does.
pub proof fn lemma_doubled_up_to_bound(p: int, target: int, e: nat, limit: nat)
    requires
        p == pow2(e),
        e <= limit,
        target <= pow2(limit),
    ensures
        doubled_up_to(p, target) <= pow2(limit),
    decreases limit - e,
{
    lemma_pow2_pos(e);
    if p >= target {
        if e < limit {
            lemma_pow2_strictly_increases(e, limit);
        }
    } else {
        if e == limit {
            assert(false);
        }
        lemma_pow2_unfold(e + 1);
        lemma_doubled_up_to_bound(2 * p, target, e + 1, limit);
    }
}

/// Frames cover the samples exactly: the first starts at 0, each starts
/// where the one before ended, none is empty, none is longer than the frame
/// length, and the last ends with the samples.
pub proof fn lemma_frames_cover(total: int, frame_len: int, index: int)
    requires
        0 <= total,
        0 < frame_len,
        0 <= index < frame_count(total, frame_len),
    ensures
        frame_start(frame_len, 0) == 0,
        frame_start(frame_len, index) < frame_end(total, frame_len, index) <= total,
        frame_end(total, frame_len, index) - frame_start(frame_len, index) <= frame_len,
        index + 1 < frame_count(total, frame_len) ==> {
            &&& frame_end(total, frame_len, index) == frame_start(frame_len, index + 1)
            &&& frame_end(total, frame_len, index) - frame_start(frame_len, index) == frame_len
        },
        index + 1 == frame_count(total, frame_len) ==> frame_end(total, frame_len, index) == total,
{
    let count = frame_count(total, frame_len);
    lemma_frame_count(total, frame_len);
    assert(index * frame_len < total) by (nonlinear_arith)
        requires
            0 <= index,
            index + 1 <= count,
            (count - 1) * frame_len < total,
            0 < frame_len,
    ;
    assert((index + 1) * frame_len == index * frame_len + frame_len) by (nonlinear_arith);
    assert(0 * frame_len == 0);
    if index + 1 < count {
        assert((index + 1) * frame_len < total) by (nonlinear_arith)
            requires
                0 <= index,
                index + 2 <= count,
                (count - 1) * frame_len < total,
                0 < frame_len,
        ;
    } else {
        assert((index + 1) * frame_len >= total) by (nonlinear_arith)
            requires
                index + 1 == count,
                total <= count * frame_len,
        ;
    }
}

/// The frame count is the least number of frames that holds all samples.
pub proof fn lemma_frame_count(total: int, frame_len: int)
    requires
        0 <= total,
        0 < frame_len,
    ensures
        0 <= frame_count(total, frame_len),
        total <= frame_count(total, frame_len) * frame_len,
        (frame_count(total, frame_len) - 1) * frame_len < total || (total == 0 && frame_count(
            total,
            frame_len,
        ) == 0),
        frame_count(total, frame_len) <= total,
{
    let a = total + frame_len - 1;
    let q = a / frame_len;
    let r = a % frame_len;
    vstd::arithmetic::div_mod::lemma_fundamental_div_mod(a, frame_len);
    vstd::arithmetic::div_mod::lemma_mod_bound(a, frame_len);
    assert(a == frame_len * q + r);
    assert(q * frame_len == frame_len * q) by (nonlinear_arith);
    assert((q - 1) * frame_len == q * frame_len - frame_len) by (nonlinear_arith);
    if total == 0 {
        assert(q == 0) by (nonlinear_arith)
            requires
                frame_len - 1 == frame_len * q + r,
                0 <= r < frame_len,
                0 < frame_len,
        ;
    } else {
        assert(q >= 1) by (nonlinear_arith)
            requires
                total + frame_len - 1 == frame_len * q + r,
                0 <= r < frame_len,
                total >= 1,
                0 < frame_len,
        ;
        assert(q <= total) by (nonlinear_arith)
            requires
                total + frame_len - 1 == frame_len * q + r,
                0 <= r,
                total >= 1,
                0 < frame_len,
                q >= 1,
        ;
    }
}

/// Samples per frame at `sample_rate` hertz for frames of `frame_ms`
/// milliseconds. A length beyond the range of `usize` is returned as
/// `usize::MAX`.
pub fn frame_length_samples(sample_rate: u32, frame_ms: u32) -> (len: usize)
    ensures
        len >= 1,
        frame_length(sample_rate as int, frame_ms as int) <= usize::MAX ==> len == frame_length(
            sample_rate as int,
            frame_ms as int,
        ),
        frame_length(sample_rate as int, frame_ms as int) > usize::MAX ==> len == usize::MAX,
{
    assert(sample_rate * frame_ms <= 0xffff_ffff * 0xffff_ffff) by (nonlinear_arith)
        requires
            0 <= sample_rate <= 0xffff_ffff,
            0 <= frame_ms <= 0xffff_ffff,
    ;
    let product: u64 = (sample_rate as u64) * (frame_ms as u64);
    let rounded: u64 = (product + 500) / 1000;
    let floored: u64 = if rounded < 1 {
        1
    } else {
        rounded
    };
    if floored > usize::MAX as u64 {
        usize::MAX
    } else {
        floored as usize
    }
}

/// The transform size for a frame of `frame_len` samples, or `None` when it
/// is beyond the range of `usize`.
pub fn transform_length(frame_len: usize) -> (fft_len: Option<usize>)
    ensures
        match fft_len {
            Some(n) => n == transform_size(frame_len as int),
            None => transform_size(frame_len as int) > usize::MAX,
        },
{
    let mut p: usize = 2;
    while p < frame_len
        invariant
            2 <= p,
            doubled_up_to(p as int, frame_len as int) == transform_size(frame_len as int),
        decreases
                (if frame_len > p {
                    frame_len - p
                } else {
                    0
                }),
    {
        if p > usize::MAX / 2 {
            proof {
                lemma_doubled_up_to_grows(2 * p, frame_len as int);
            }
            return None;
        }
        p = 2 * p;
    }
    Some(p)
}

proof fn lemma_doubled_up_to_grows(p: int, target: int)
    requires
        p > 0,
    ensures
        doubled_up_to(p, target) >= p,
    decreases
            (if target > p {
                target - p
            } else {
                0
            }),
{
    if p < target {
        lemma_doubled_up_to_grows(2 * p, target);
    }
}

/// Number of frames that `total` samples fall into.
pub fn count_frames(total: usize, frame_len: usize) -> (count: usize)
    requires
        frame_len > 0,
    ensures
        count == frame_count(total as int, frame_len as int),
{
    let whole: usize = total / frame_len;
    let rest: usize = total % frame_len;
    proof {
        let f = frame_len as int;
        let extra: int = if rest == 0 {
            0
        } else {
            1
        };
        let r2: int = if rest == 0 {
            f - 1
        } else {
            rest - 1
        };
        vstd::arithmetic::div_mod::lemma_fundamental_div_mod(total as int, f);
        assert(total + f - 1 == (whole + extra) * f + r2) by (nonlinear_arith)
            requires
                total == f * whole + rest,
                extra == (if rest == 0 {
                    0int
                } else {
                    1int
                }),
                r2 == (if rest == 0 {
                    f - 1
                } else {
                    rest - 1
                }),
        ;
        vstd::arithmetic::div_mod::lemma_fundamental_div_mod_converse(
            total + f - 1,
            f,
            whole + extra,
            r2,
        );
    }
    if rest == 0 {
        whole
    } else {
        assert(whole < total) by (nonlinear_arith)
            requires
                total == frame_len * whole + rest,
                rest > 0,
                frame_len > 0,
                whole >= 0,
        ;
        whole + 1
    }
}

/// The half-open range of sample indices that frame `index` covers.
pub fn frame_bounds(total: usize, frame_len: usize, index: usize) -> (bounds: (usize, usize))
    requires
        frame_len > 0,
        index < frame_count(total as int, frame_len as int),
    ensures
        bounds.0 == frame_start(frame_len as int, index as int),
        bounds.1 == frame_end(total as int, frame_len as int, index as int),
        bounds.0 < bounds.1 <= total,
{
    proof {
        lemma_frames_cover(total as int, frame_len as int, index as int);
    }
    let start: usize = index * frame_len;
    let end: usize = if total - start <= frame_len {
        total
    } else {
        start + frame_len
    };
    proof {
        assert((index + 1) * frame_len == index * frame_len + frame_len) by (nonlinear_arith);
    }
    (start, end)
}

} // verus!
