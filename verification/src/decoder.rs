//! Blind decoding.
//!
//! The decoder never sees the unmarked audio. It is handed the spectrum of
//! every frame of the marked audio, as fixed-point log-magnitudes, and works
//! its way to a message:
//!
//! 1. score and calibrate each frame, and aggregate the valid ones
//!    ([`summarise_frames`]);
//! 2. take the global threshold and polarity from the pilot positions of
//!    the aggregated scores ([`pilot_stats`]);
//! 3. decide every bit ([`decide_bits`]);
//! 4. search for the payload length ([`choose_length`]) and pack the
//!    payload.
//!
//! Frames are 32 ms long. The caller cuts the samples into frames, pads
//! each to the transform size with zeros, transforms it, and hands over the
//! natural logarithm of every bin's magnitude, in a fixed-point unit of its
//! choice. The unit only sets how finely the baseline of a score is rounded.

use crate::aggregate::{
    aggregated_scores, aggregated_votes, eligible_bins, frame_scores, frame_valid,
    majority_inverted, spectra, summarise_frames, valid_count,
};
use crate::decision::{decide_bits, decided_bits};
use crate::error::DecodeError;
use crate::frames::{
    frame_length, frame_length_samples, lemma_doubled_up_to_bound, lemma_transform_size,
    spectrum_bins, transform_length, transform_size, DECODE_FRAME_MS, START_BIN,
};
use crate::length_search::{
    choose_length, chosen_length, is_printable, lemma_true_length_is_chosen,
};
use crate::pilot::{
    lemma_zero_scores_match_four, pilot_stats, sum_high, sum_low, PilotStats,
};
use crate::protocol::{
    bit_sequence, bytes_to_bits, decode_length_header, header_value, lemma_bit_sequence_header,
    lemma_pack_round_trip, pack_bits, pack_bytes, PILOT_BITS, PREAMBLE_BITS,
};
use crate::scores::{lemma_flat_frame_scores_zero, spectral_scores_of};
use vstd::arithmetic::power2::lemma2_to64;
use vstd::prelude::*;
use vstd::slice::{slice_subrange, slice_to_vec};
use vstd::string::*;
use vstd::utf8::{decode_utf8, valid_utf8};

pub use crate::paths::default_watermarked_path;

verus! {

/// Reach, in bins on either side, of the neighbourhood that a score is
/// taken against.
pub const WINDOW_RADIUS: usize = 3;

/// The longest bit sequence that [`decode_bits`] accepts: the preamble and
/// a payload of `MAX_PAYLOAD_BYTES` bytes.
pub const MAX_DECODE_BITS: usize = 134_217_752;

/// The text that `String::from_utf8_lossy` makes of `bytes`.
pub uninterp spec fn lossy_utf8(bytes: Seq<u8>) -> Seq<char>;

/// A decoded watermark.
#[derive(Debug, PartialEq, Eq)]
pub struct DecodedWatermark {
    /// The payload read as UTF-8, with every invalid sequence replaced by
    /// U+FFFD.
    pub message: String,
    /// The payload.
    pub raw_bytes: Vec<u8>,
}

impl DecodedWatermark {
    /// The message is the lossy UTF-8 reading of the payload; where the
    /// payload is valid UTF-8, that is the text it encodes.
    pub open spec fn well_formed(self) -> bool {
        &&& self.message@ == lossy_utf8(self.raw_bytes@)
        &&& valid_utf8(self.raw_bytes@) ==> self.message@ == decode_utf8(self.raw_bytes@)
    }
}

/// What the decoder went through on its way to a message.
#[derive(Debug, PartialEq, Eq)]
pub struct DecodeVisualization {
    /// The decided bits: pilot, length header, payload.
    pub bit_sequence: Vec<u8>,
    /// Aggregated score of each bit position.
    pub scores: Vec<i64>,
    /// Number of valid frames that read each bit position as 1.
    pub votes: Vec<usize>,
    /// Number of valid frames: the votes are out of this many.
    pub valid_frames: usize,
    /// Four times the mean aggregated score where the pilot is 1.
    pub sum_high: i128,
    /// Four times the mean aggregated score where the pilot is 0.
    pub sum_low: i128,
    /// Whether the bits were decided in inverted polarity.
    pub inverted: bool,
}

/// Number of bit positions at `sample_rate` hertz: the bins of a 32 ms
/// frame's spectrum from `START_BIN` on.
pub open spec fn usable_bins(sample_rate: int) -> int {
    let bins = spectrum_bins(transform_size(frame_length(sample_rate, DECODE_FRAME_MS as int)));
    if bins >= START_BIN {
        bins - START_BIN
    } else {
        0
    }
}

/// The pilot sums of a score vector.
pub open spec fn stats_of(scores: Seq<i64>) -> PilotStats {
    PilotStats { sum_high: sum_high(scores) as i128, sum_low: sum_low(scores) as i128 }
}

/// Bits are decided in inverted polarity when more than half of the valid
/// frames were read inverted, or when the aggregated pilot scores
/// themselves are the wrong way round: `avg_high < avg_low`.
pub open spec fn globally_inverted(frames: Seq<Seq<i32>>, usable: int, radius: int) -> bool {
    let scores = aggregated_scores(frames, usable, radius);
    majority_inverted(frames, usable, radius) || sum_high(scores) < sum_low(scores)
}

/// The bits that `frames` decide, given at least 24 bit positions.
pub open spec fn decoded_bits(frames: Seq<Seq<i32>>, usable: int, radius: int) -> Seq<u8> {
    let scores = aggregated_scores(frames, usable, radius);
    decided_bits(
        scores,
        aggregated_votes(frames, usable, radius),
        valid_count(frames, usable, radius) as int,
        stats_of(scores),
        globally_inverted(frames, usable, radius),
    )
}

/// The payload bits of a bit sequence: what follows pilot and header.
pub open spec fn payload_bits(bits: Seq<u8>) -> Seq<u8> {
    bits.subrange(PREAMBLE_BITS as int, bits.len() as int)
}

/// The payload that a decided bit sequence yields. A sequence too short to
/// hold the preamble and one payload byte yields the empty payload.
pub open spec fn payload_of(bits: Seq<u8>) -> Seq<u8> {
    if bits.len() < PREAMBLE_BITS {
        Seq::empty()
    } else {
        let hint = header_value(bits.subrange(PILOT_BITS as int, PREAMBLE_BITS as int));
        let payload = payload_bits(bits);
        let candidates = pack_bits(payload, payload.len() as int / 8);
        let n = chosen_length(candidates, hint);
        pack_bits(payload.take(8 * n), n)
    }
}

/// What decoding `frames` at `sample_rate` hertz comes to: the payload, or
/// the failure.
pub open spec fn decoded_payload(frames: Seq<Seq<i32>>, sample_rate: int) -> Result<
    Seq<u8>,
    DecodeError,
> {
    let usable = usable_bins(sample_rate);
    let radius = WINDOW_RADIUS as int;
    if valid_count(frames, usable, radius) == 0 {
        Err(DecodeError::NoReliableFrames)
    } else if usable < PREAMBLE_BITS {
        Ok(Seq::empty())
    } else {
        Ok(payload_of(decoded_bits(frames, usable, radius)))
    }
}

/// Over a channel that changes no bit, a message of printable bytes comes
/// back as it was sent, provided its length fits the 16-bit header.
pub proof fn lemma_clean_round_trip(message: Seq<u8>)
    requires
        message.len() <= 65535,
        forall|i: int| 0 <= i < message.len() ==> is_printable(#[trigger] message[i]),
    ensures
        payload_of(bit_sequence(message)) == message,
{
    let bits = bit_sequence(message);
    let len = message.len() as int;
    lemma_bit_sequence_header(message);
    let payload = payload_bits(bits);
    assert(payload == bytes_to_bits(message));
    assert(payload.len() / 8 == len);
    lemma_pack_round_trip(message);
    lemma_true_length_is_chosen(message);
    assert(payload.take(8 * len) =~= payload);
}

/// A frame is flat when all its bins from `START_BIN` on hold the same
/// log-magnitude, as they do for silence.
pub open spec fn frame_is_flat(frame: Seq<i32>) -> bool {
    forall|i: int, j: int|
        START_BIN <= i < frame.len() && START_BIN <= j < frame.len() ==> frame[i] == frame[j]
}

/// A flat frame is never valid: all its scores are zero, and zero scores
/// reproduce four pilot bits in either polarity, one short of five.
pub proof fn lemma_flat_frame_is_skipped(frame: Seq<i32>, usable: int, radius: int)
    requires
        frame_is_flat(frame),
        0 <= radius,
    ensures
        !frame_valid(frame, usable, radius),
{
    let bins = eligible_bins(frame, usable);
    let scores = frame_scores(frame, usable, radius);
    if scores.len() >= 8 {
        assert forall|i: int, j: int| 0 <= i < bins.len() && 0 <= j < bins.len() implies bins[i]
            == bins[j] by {
            assert(bins[i] == frame[START_BIN + i]);
            assert(bins[j] == frame[START_BIN + j]);
        }
        lemma_flat_frame_scores_zero(bins, radius);
        assert forall|i: int| 0 <= i < 8 implies scores[i] == 0 by {
            assert(spectral_scores_of(bins, radius)[i] == 0);
        }
        lemma_zero_scores_match_four(scores);
    }
}

/// Where every frame is flat, no frame is valid.
pub proof fn lemma_flat_frames_none_valid(frames: Seq<Seq<i32>>, usable: int, radius: int)
    requires
        forall|k: int| 0 <= k < frames.len() ==> frame_is_flat(#[trigger] frames[k]),
        0 <= radius,
    ensures
        valid_count(frames, usable, radius) == 0,
    decreases frames.len(),
{
    if frames.len() > 0 {
        let rest = frames.drop_last();
        assert forall|k: int| 0 <= k < rest.len() implies frame_is_flat(#[trigger] rest[k]) by {
            assert(rest[k] == frames[k]);
        }
        lemma_flat_frames_none_valid(rest, usable, radius);
        assert(frame_is_flat(frames[frames.len() - 1]));
        lemma_flat_frame_is_skipped(frames.last(), usable, radius);
    }
}

/// Silence is fatal: where every frame is flat, and also where there is no
/// frame at all, decoding fails for want of a reliable frame.
pub proof fn lemma_silence_fails(frames: Seq<Seq<i32>>, sample_rate: int)
    requires
        forall|k: int| 0 <= k < frames.len() ==> frame_is_flat(#[trigger] frames[k]),
    ensures
        decoded_payload(frames, sample_rate) == Err::<Seq<u8>, DecodeError>(
            DecodeError::NoReliableFrames,
        ),
{
    lemma_flat_frames_none_valid(frames, usable_bins(sample_rate), WINDOW_RADIUS as int);
}

/// `String::from_utf8_lossy` of the standard library, made into an owned
/// string: the text of `bytes` read as UTF-8, each invalid sequence replaced
/// by U+FFFD. Valid UTF-8 comes back as the text it encodes.
#[verifier::external_body]
fn utf8_lossy(bytes: &Vec<u8>) -> (text: String)
    ensures
        text@ == lossy_utf8(bytes@),
        valid_utf8(bytes@) ==> text@ == decode_utf8(bytes@),
{
    String::from_utf8_lossy(bytes).into_owned()
}

/// Packs `bits` into at most `expected_bytes` bytes and reads them as text.
///
/// A last byte that has only some of its bits present is filled with zero
/// bits; bytes with no bit present are left out.
pub fn bits_to_message(bits: Vec<u8>, expected_bytes: usize) -> (decoded: DecodedWatermark)
    ensures
        decoded.raw_bytes@ == pack_bits(bits@, expected_bytes as int),
        decoded.well_formed(),
{
    let raw_bytes = pack_bytes(bits.as_slice(), expected_bytes);
    let message = utf8_lossy(&raw_bytes);
    DecodedWatermark { message, raw_bytes }
}

/// Number of bit positions at `sample_rate` hertz.
pub fn decoder_usable_bins(sample_rate: u32) -> (usable: usize)
    ensures
        usable == usable_bins(sample_rate as int),
        usable <= 0x800_0000,
{
    let frame_len: usize = frame_length_samples(sample_rate, DECODE_FRAME_MS);
    proof {
        let len = frame_length(sample_rate as int, DECODE_FRAME_MS as int);
        assert(len <= 137_438_954);
        lemma2_to64();
        lemma_doubled_up_to_bound(2, len, 1, 28);
        lemma_transform_size(len);
    }
    match transform_length(frame_len) {
        Some(fft_len) => {
            let bins: usize = fft_len / 2 + 1;
            if bins >= START_BIN {
                bins - START_BIN
            } else {
                0
            }
        },
        None => 0,
    }
}

/// Reads the message out of a decided bit sequence: parses the length
/// header as a hint, searches for the payload length, and packs that many
/// payload bytes.
pub fn decode_bits(bits: &[u8]) -> (decoded: DecodedWatermark)
    requires
        bits.len() <= MAX_DECODE_BITS,
    ensures
        decoded.raw_bytes@ == payload_of(bits@),
        decoded.well_formed(),
{
    if bits.len() < PREAMBLE_BITS {
        let decoded = bits_to_message(Vec::new(), 0);
        assert(decoded.raw_bytes@ =~= Seq::<u8>::empty());
        return decoded;
    }
    let header_len: usize = decode_length_header(slice_subrange(bits, PILOT_BITS, PREAMBLE_BITS));
    let payload: &[u8] = slice_subrange(bits, PREAMBLE_BITS, bits.len());
    let max_bytes: usize = payload.len() / 8;
    let candidates: Vec<u8> = pack_bytes(payload, max_bytes);
    let n: usize = choose_length(&candidates, header_len as u16);
    let message_bits: Vec<u8> = slice_to_vec(slice_subrange(payload, 0, 8 * n));
    assert(message_bits@ == payload@.take(8 * n));
    bits_to_message(message_bits, n)
}

/// Decodes the watermark from the spectra of the frames of a recording at
/// `sample_rate` hertz, and reports the statistics behind the decision.
///
/// Fails when no frame is valid. Where there are fewer than 24 bit
/// positions, the message is empty and so is the report.
pub fn decode_frames_with_viz(frames: &Vec<Vec<i32>>, sample_rate: u32) -> (result: Result<
    (DecodedWatermark, DecodeVisualization),
    DecodeError,
>)
    ensures
        match result {
            Ok((decoded, viz)) => {
                &&& decoded_payload(spectra(frames@), sample_rate as int) == Ok::<
                    Seq<u8>,
                    DecodeError,
                >(decoded.raw_bytes@)
                &&& decoded.well_formed()
                &&& viz.valid_frames == valid_count(
                    spectra(frames@),
                    usable_bins(sample_rate as int),
                    WINDOW_RADIUS as int,
                )
                &&& usable_bins(sample_rate as int) < PREAMBLE_BITS ==> {
                    &&& viz.bit_sequence@.len() == 0
                    &&& viz.scores@.len() == 0
                    &&& viz.votes@.len() == 0
                    &&& viz.sum_high == 0
                    &&& viz.sum_low == 0
                    &&& !viz.inverted
                }
                &&& usable_bins(sample_rate as int) >= PREAMBLE_BITS ==> {
                    let usable = usable_bins(sample_rate as int);
                    let radius = WINDOW_RADIUS as int;
                    &&& viz.bit_sequence@ == decoded_bits(spectra(frames@), usable, radius)
                    &&& viz.scores@ == aggregated_scores(spectra(frames@), usable, radius)
                    &&& viz.votes@ == aggregated_votes(spectra(frames@), usable, radius)
                    &&& viz.sum_high == sum_high(viz.scores@)
                    &&& viz.sum_low == sum_low(viz.scores@)
                    &&& viz.inverted == globally_inverted(spectra(frames@), usable, radius)
                }
            },
            Err(error) => decoded_payload(spectra(frames@), sample_rate as int) == Err::<
                Seq<u8>,
                DecodeError,
            >(error),
        },
{
    let usable: usize = decoder_usable_bins(sample_rate);
    let summary = match summarise_frames(frames, usable, WINDOW_RADIUS) {
        Ok(summary) => summary,
        Err(error) => {
            return Err(error);
        },
    };
    if usable < PREAMBLE_BITS {
        let decoded = bits_to_message(Vec::new(), 0);
        assert(decoded.raw_bytes@ =~= Seq::<u8>::empty());
        let viz = DecodeVisualization {
            bit_sequence: Vec::new(),
            scores: Vec::new(),
            votes: Vec::new(),
            valid_frames: summary.valid_frames,
            sum_high: 0,
            sum_low: 0,
            inverted: false,
        };
        return Ok((decoded, viz));
    }
    let stats = pilot_stats(summary.scores.as_slice());
    let inverted: bool = summary.inverted || stats.sum_high < stats.sum_low;
    let bits = decide_bits(
        summary.scores.as_slice(),
        summary.votes.as_slice(),
        summary.valid_frames,
        &stats,
        inverted,
    );
    assert(stats == stats_of(summary.scores@));
    let decoded = decode_bits(bits.as_slice());
    let viz = DecodeVisualization {
        bit_sequence: bits,
        scores: summary.scores,
        votes: summary.votes,
        valid_frames: summary.valid_frames,
        sum_high: stats.sum_high,
        sum_low: stats.sum_low,
        inverted,
    };
    Ok((decoded, viz))
}

/// Decodes the watermark from the spectra of the frames of a recording at
/// `sample_rate` hertz.
///
/// Fails when no frame is valid: the recording carries no detectable
/// watermark.
pub fn decode_frames(frames: &Vec<Vec<i32>>, sample_rate: u32) -> (result: Result<
    DecodedWatermark,
    DecodeError,
>)
    ensures
        match result {
            Ok(decoded) => {
                &&& decoded_payload(spectra(frames@), sample_rate as int) == Ok::<
                    Seq<u8>,
                    DecodeError,
                >(decoded.raw_bytes@)
                &&& decoded.well_formed()
            },
            Err(error) => decoded_payload(spectra(frames@), sample_rate as int) == Err::<
                Seq<u8>,
                DecodeError,
            >(error),
        },
{
    match decode_frames_with_viz(frames, sample_rate) {
        Ok((decoded, _viz)) => Ok(decoded),
        Err(error) => Err(error),
    }
}

} // verus!
