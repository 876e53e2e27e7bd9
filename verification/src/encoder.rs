//! Planning the embedding.
//!
//! A bit is imprinted on a frame by scaling one bin of the frame's spectrum:
//! up for a 1, down for a 0. Bit `i` of the bit sequence goes to bin
//! `START_BIN + i`; bits for which the spectrum has no bin are left out of
//! that frame, and bins that carry no bit stay as they are. Every frame
//! receives the same bits.
//!
//! The spectrum itself is the caller's: this module says by how much each
//! bin is to be scaled, as a table of gains in thirtieths. The caller
//! transforms each frame, multiplies real and imaginary part of every bin by
//! its gain over thirty, transforms back, divides by the transform size and
//! keeps as many samples as the frame had.

use crate::frames::{
    frame_length, frame_length_samples, spectrum_bins, transform_length, transform_size,
    START_BIN,
};
use crate::protocol::{bit_sequence, build_bit_sequence};
use vstd::prelude::*;
use vstd::string::*;

pub use crate::paths::experiment_output_path;
pub use crate::protocol::PILOT_PATTERN;

verus! {

/// The gain that leaves a bin unchanged. Gains are counted in thirtieths.
pub const GAIN_UNITY: u32 = 30;

/// The least strength, in percent, that is ever applied.
pub const MIN_STRENGTH_PERCENT: u32 = 15;

/// The greatest strength, in thirtieths of full scale: one half.
pub const MAX_STRENGTH: u32 = 15;

/// The strength that a request for `percent` comes to, in thirtieths of
/// full scale: the request is raised to the floor where it is lower, taken
/// over thirty, and capped at one half.
pub open spec fn effective_strength(percent: int) -> int {
    let floored = if percent < MIN_STRENGTH_PERCENT {
        MIN_STRENGTH_PERCENT as int
    } else {
        percent
    };
    if floored > MAX_STRENGTH {
        MAX_STRENGTH as int
    } else {
        floored
    }
}

/// The gain for a bin that carries `bit`, in thirtieths: `1 + strength` for
/// a 1, and `1 - strength`, though never below zero, for anything else.
pub open spec fn bit_gain(bit: u8, strength: int) -> int {
    if bit == 1 {
        GAIN_UNITY + strength
    } else if strength >= GAIN_UNITY {
        0
    } else {
        GAIN_UNITY - strength
    }
}

/// The gain for bin `bin` of a spectrum, in thirtieths.
pub open spec fn bin_gain(bits: Seq<u8>, strength: int, bin: int) -> int {
    if START_BIN <= bin < START_BIN + bits.len() {
        bit_gain(bits[bin - START_BIN], strength)
    } else {
        GAIN_UNITY as int
    }
}

/// The gains for a spectrum of `bins` bins.
pub open spec fn gains_of(bits: Seq<u8>, bins: int, strength: int) -> Seq<u32> {
    Seq::new(bins as nat, |bin: int| bin_gain(bits, strength, bin) as u32)
}

/// Frames of `frame_len` samples can carry a watermark: a frame is longer
/// than `START_BIN` samples, and its spectrum reaches beyond `START_BIN`.
pub open spec fn embedding_feasible(frame_len: int) -> bool {
    frame_len > START_BIN && spectrum_bins(transform_size(frame_len)) > START_BIN
}

/// Requests below the floor are all served like a request at the floor.
pub proof fn lemma_strength_floor(percent: int)
    requires
        0 <= percent <= 14,
    ensures
        effective_strength(percent) == effective_strength(15),
{
}

/// The floor and the cap meet: whatever is asked for, the strength applied
/// is one half.
pub proof fn lemma_strength_is_half(percent: int)
    ensures
        effective_strength(percent) == 15,
{
}

/// Frames no longer than `START_BIN` samples carry no watermark.
pub proof fn lemma_short_frames_infeasible(frame_len: int)
    requires
        frame_len <= START_BIN,
    ensures
        !embedding_feasible(frame_len),
{
}

/// How to embed a bit sequence into the frames of a recording.
#[derive(Debug, PartialEq, Eq)]
pub struct EmbedPlan {
    /// Samples per frame.
    pub frame_len: usize,
    /// Size of the transform of a frame.
    pub fft_len: usize,
    /// Gain of every bin of a frame's spectrum, in thirtieths.
    pub gains: Vec<u32>,
}

/// The strength, in thirtieths, that a request for `strength_percent` comes
/// to.
pub fn strength_thirtieths(strength_percent: u32) -> (strength: u32)
    ensures
        strength == effective_strength(strength_percent as int),
{
    let floored: u32 = if strength_percent < MIN_STRENGTH_PERCENT {
        MIN_STRENGTH_PERCENT
    } else {
        strength_percent
    };
    if floored > MAX_STRENGTH {
        MAX_STRENGTH
    } else {
        floored
    }
}

/// The gains, in thirtieths, that imprint `bits` on a spectrum of `bins`
/// bins at the strength that `strength_percent` comes to.
pub fn bin_gains(bits: &[u8], bins: usize, strength_percent: u32) -> (gains: Vec<u32>)
    ensures
        gains@ == gains_of(bits@, bins as int, effective_strength(strength_percent as int)),
{
    let strength: u32 = strength_thirtieths(strength_percent);
    let boost: u32 = GAIN_UNITY + strength;
    let cut: u32 = GAIN_UNITY - strength;
    let ghost want = gains_of(bits@, bins as int, strength as int);
    let count: usize = bits.len();
    let mut gains: Vec<u32> = Vec::new();
    let mut bin: usize = 0;
    while bin < bins
        invariant
            bin <= bins,
            count == bits@.len(),
            strength == effective_strength(strength_percent as int),
            boost == bit_gain(1, strength as int),
            cut == bit_gain(0, strength as int),
            want == gains_of(bits@, bins as int, strength as int),
            gains@ =~= want.take(bin as int),
        decreases bins - bin,
    {
        let gain: u32 = if bin >= START_BIN && bin - START_BIN < count {
            if bits[bin - START_BIN] == 1 {
                boost
            } else {
                cut
            }
        } else {
            GAIN_UNITY
        };
        gains.push(gain);
        bin += 1;
    }
    gains
}

/// Plans the embedding of `message` into a recording at `sample_rate`
/// hertz, in frames of `frame_duration_ms` milliseconds.
///
/// Returns the bit sequence of the message and, where frames of that length
/// can carry a watermark, the plan. Where they cannot, there is no plan and
/// the recording is to be left exactly as it is.
pub fn plan_embedding(
    sample_rate: u32,
    message: &str,
    frame_duration_ms: u32,
    strength_percent: u32,
) -> (planned: (Vec<u8>, Option<EmbedPlan>))
    ensures
        planned.0@ == bit_sequence(message.spec_bytes()),
        planned.1 is Some <==> {
            let frame_len = frame_length(sample_rate as int, frame_duration_ms as int);
            embedding_feasible(frame_len) && transform_size(frame_len) <= usize::MAX
        },
        planned.1 matches Some(plan) ==> {
            let frame_len = frame_length(sample_rate as int, frame_duration_ms as int);
            &&& plan.frame_len == frame_len
            &&& plan.fft_len == transform_size(frame_len)
            &&& plan.gains@ == gains_of(
                planned.0@,
                spectrum_bins(transform_size(frame_len)),
                effective_strength(strength_percent as int),
            )
        },
{
    let bits = build_bit_sequence(message);
    let frame_len: usize = frame_length_samples(sample_rate, frame_duration_ms);
    proof {
        crate::frames::lemma_transform_size(
            frame_length(sample_rate as int, frame_duration_ms as int),
        );
        crate::frames::lemma_transform_size(frame_len as int);
    }
    if frame_len <= START_BIN {
        return (bits, None);
    }
    let fft_len: usize = match transform_length(frame_len) {
        Some(fft_len) => fft_len,
        None => {
            return (bits, None);
        },
    };
    proof {
        // A power of two never equals `usize::MAX`, so the frame length was
        // not cut short.
        assert(usize::MAX % 2 == 1) by {
            assert(usize::MAX == 0xffff_ffff || usize::MAX == 0xffff_ffff_ffff_ffff);
        }
        assert(fft_len != usize::MAX) by {
            reveal(vstd::arithmetic::power2::is_pow2);
        }
    }
    let bins: usize = fft_len / 2 + 1;
    if START_BIN >= bins {
        return (bits, None);
    }
    let gains = bin_gains(bits.as_slice(), bins, strength_percent);
    (bits, Some(EmbedPlan { frame_len, fft_len, gains }))
}

} // verus!
