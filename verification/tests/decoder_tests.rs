use msg_encoder::decoder::{
    bits_to_message, decode_bits, decode_frames, decode_frames_with_viz, decoder_usable_bins,
    DecodedWatermark, MAX_DECODE_BITS, WINDOW_RADIUS,
};
use msg_encoder::error::DecodeError;
use msg_encoder::frames::START_BIN;
use msg_encoder::protocol::{build_bit_sequence, expand_bytes};

/// Spectra of `frames` frames at 8 kHz that carry `message`: every bin sits
/// at a level of 1000 plus noise of up to 100000 either way, and a bin that
/// carries a bit is raised by 400000 for a 1 and lowered as much for a 0.
/// With `mirrored`, raising and lowering change places.
fn synthetic_spectra(message: &str, frames: usize, mirrored: bool) -> Vec<Vec<i32>> {
    let bits = build_bit_sequence(message);
    let bins = START_BIN + decoder_usable_bins(8000);
    let mut state: u64 = 7;
    let mut spectra = Vec::new();
    for _ in 0..frames {
        let mut spectrum = Vec::new();
        for bin in 0..bins {
            state = (state * 1_103_515_245 + 12_345) % (1 << 31);
            let noise = ((state >> 8) % 200_001) as i32 - 100_000;
            let mut level = 1000 + noise;
            if bin >= START_BIN && bin - START_BIN < bits.len() {
                let up = (bits[bin - START_BIN] == 1) != mirrored;
                level += if up { 400_000 } else { -400_000 };
            }
            spectrum.push(level);
        }
        spectra.push(spectrum);
    }
    spectra
}

#[test]
fn decoder_constants() {
    assert_eq!(WINDOW_RADIUS, 3);
    assert_eq!(MAX_DECODE_BITS, 24 + 8 * 16_777_216);
}

#[test]
fn bit_positions_at_common_sample_rates() {
    // 8 kHz: 256 samples, 129 bins.
    assert_eq!(decoder_usable_bins(8000), 81);
    // 16 kHz: 512 samples, 257 bins.
    assert_eq!(decoder_usable_bins(16_000), 209);
    // 44.1 kHz: 1411 samples, padded to 2048, 1025 bins.
    assert_eq!(decoder_usable_bins(44_100), 977);
}

#[test]
fn bit_positions_at_the_extremes() {
    assert_eq!(decoder_usable_bins(0), 0);
    assert_eq!(decoder_usable_bins(1500), 0);
    assert_eq!(decoder_usable_bins(2500), 17);
    assert_eq!(decoder_usable_bins(u32::MAX), 134_217_681);
}

#[test]
fn message_from_bits_of_valid_text() {
    let decoded = bits_to_message(expand_bytes(b"hello"), 5);
    assert_eq!(decoded.raw_bytes, b"hello".to_vec());
    assert_eq!(decoded.message, "hello");
}

#[test]
fn message_from_bits_of_multibyte_text() {
    let decoded = bits_to_message(expand_bytes("gr\u{fc}n".as_bytes()), 5);
    assert_eq!(decoded.raw_bytes, vec![b'g', b'r', 0xc3, 0xbc, b'n']);
    assert_eq!(decoded.message, "gr\u{fc}n");
}

#[test]
fn invalid_utf8_is_replaced_in_the_message_only() {
    let decoded = bits_to_message(expand_bytes(&[0xff, b'a', 0xc3]), 3);
    assert_eq!(decoded.raw_bytes, vec![0xff, b'a', 0xc3]);
    assert_eq!(decoded.message, "\u{fffd}a\u{fffd}");
}

#[test]
fn message_from_fewer_bits_than_expected() {
    let mut bits = expand_bytes(b"ab");
    bits.extend_from_slice(&[0, 1, 1]);
    let decoded = bits_to_message(bits, 5);
    // The third byte is 011 followed by zeros.
    assert_eq!(decoded.raw_bytes, vec![b'a', b'b', 0b0110_0000]);
    assert_eq!(decoded.message, "ab`");
}

#[test]
fn message_from_no_bits() {
    let decoded = bits_to_message(Vec::new(), 4);
    assert_eq!(
        decoded,
        DecodedWatermark { message: String::new(), raw_bytes: Vec::new() }
    );
    let decoded = bits_to_message(expand_bytes(b"abc"), 0);
    assert_eq!(decoded.raw_bytes, Vec::<u8>::new());
    assert_eq!(decoded.message, "");
}

#[test]
fn clean_bits_decode_to_the_message() {
    for message in ["hello", "fourier", "mister", "a", "two words", "tab\tand\nnewline"] {
        let decoded = decode_bits(&build_bit_sequence(message));
        assert_eq!(decoded.message, message);
        assert_eq!(decoded.raw_bytes, message.as_bytes().to_vec());
    }
}

#[test]
fn clean_bits_of_the_empty_message() {
    let decoded = decode_bits(&build_bit_sequence(""));
    assert_eq!(decoded.message, "");
    assert_eq!(decoded.raw_bytes, Vec::<u8>::new());
}

#[test]
fn too_few_bits_for_a_payload_byte() {
    assert_eq!(decode_bits(&[]).raw_bytes, Vec::<u8>::new());
    assert_eq!(decode_bits(&[1; 23]).raw_bytes, Vec::<u8>::new());
    assert_eq!(decode_bits(&[1; 24]).raw_bytes, Vec::<u8>::new());
    assert_eq!(decode_bits(&[1; 31]).raw_bytes, Vec::<u8>::new());
    assert_eq!(decode_bits(&[1; 31]).message, "");
    assert_eq!(decode_bits(&[1; 32]).raw_bytes, vec![0xff]);
}

#[test]
fn bits_past_the_last_whole_byte_are_ignored() {
    let mut bits = build_bit_sequence("ok");
    bits.extend_from_slice(&[1, 1, 1, 1, 1, 1, 1]);
    assert_eq!(decode_bits(&bits).message, "ok");
}

#[test]
fn the_header_is_only_a_hint() {
    // The header says 2, but seven printable bytes follow.
    let mut bits = build_bit_sequence("fourier");
    for bit in bits[8..24].iter_mut() {
        *bit = 0;
    }
    bits[22] = 1;
    assert_eq!(decode_bits(&bits).message, "fourier");
}

#[test]
fn unprintable_noise_after_the_message_is_cut() {
    let mut bits = build_bit_sequence("hello");
    bits.extend_from_slice(&expand_bytes(&[0x00, 0x81]));
    assert_eq!(decode_bits(&bits).message, "hello");
}

#[test]
fn printable_noise_after_the_message_is_kept() {
    let mut bits = build_bit_sequence("hello");
    bits.extend_from_slice(&expand_bytes(b"zz"));
    assert_eq!(decode_bits(&bits).message, "hellozz");
}

#[test]
fn synthetic_frames_decode() {
    let spectra = synthetic_spectra("hello", 9, false);
    let (decoded, viz) = decode_frames_with_viz(&spectra, 8000).unwrap();
    assert_eq!(decoded.message, "hello");
    assert_eq!(decoded.raw_bytes, b"hello".to_vec());
    assert_eq!(viz.valid_frames, 9);
    assert!(!viz.inverted);
    assert_eq!(viz.bit_sequence.len(), 81);
    assert_eq!(&viz.bit_sequence[..64], &build_bit_sequence("hello")[..]);
    assert_eq!(viz.scores.len(), 81);
    assert_eq!(&viz.scores[..4], &[-594_020, 560_043, -421_272, 588_397]);
    assert_eq!(&viz.votes[..4], &[0, 9, 0, 9]);
    assert_eq!(
        viz.sum_high,
        (viz.scores[1] + viz.scores[3] + viz.scores[5] + viz.scores[7]) as i128
    );
    assert_eq!(
        viz.sum_low,
        (viz.scores[0] + viz.scores[2] + viz.scores[4] + viz.scores[6]) as i128
    );
    assert_eq!(decode_frames(&spectra, 8000).unwrap(), decoded);
}

#[test]
fn mirrored_synthetic_frames_decode_in_inverted_polarity() {
    let spectra = synthetic_spectra("fourier", 9, true);
    let (decoded, viz) = decode_frames_with_viz(&spectra, 8000).unwrap();
    assert!(viz.inverted);
    assert_eq!(viz.valid_frames, 9);
    assert_eq!(&viz.scores[..4], &[472_647, -639_957, 538_728, -478_269]);
    // Every frame votes in its own, inverted, polarity.
    assert_eq!(&viz.votes[..4], &[0, 9, 0, 9]);
    assert_eq!(decoded.message, "fourier");
}

#[test]
fn flat_frames_are_fatal() {
    let spectra = vec![vec![-28_973_000; 129]; 40];
    assert_eq!(decode_frames(&spectra, 8000), Err(DecodeError::NoReliableFrames));
    assert_eq!(
        decode_frames_with_viz(&spectra, 8000).err(),
        Some(DecodeError::NoReliableFrames)
    );
}

#[test]
fn frames_that_differ_only_below_the_first_marked_bin_are_fatal() {
    let mut spectrum = vec![5; 129];
    for (bin, level) in spectrum.iter_mut().enumerate().take(START_BIN) {
        *level = 1000 * bin as i32;
    }
    assert_eq!(
        decode_frames(&vec![spectrum; 3], 8000),
        Err(DecodeError::NoReliableFrames)
    );
}

#[test]
fn no_frames_are_fatal() {
    assert_eq!(decode_frames(&Vec::new(), 8000), Err(DecodeError::NoReliableFrames));
}

#[test]
fn a_sample_rate_without_bit_positions_is_fatal() {
    let spectra = synthetic_spectra("hello", 9, false);
    assert_eq!(decode_frames(&spectra, 1500), Err(DecodeError::NoReliableFrames));
}

#[test]
fn too_few_bit_positions_for_a_header_give_an_empty_message() {
    // At 2500 Hz there are 17 bit positions: enough for the pilot, too few
    // for the header.
    let spectra = synthetic_spectra("hello", 9, false);
    let (decoded, viz) = decode_frames_with_viz(&spectra, 2500).unwrap();
    assert_eq!(decoded.message, "");
    assert_eq!(decoded.raw_bytes, Vec::<u8>::new());
    assert_eq!(viz.bit_sequence, Vec::<u8>::new());
    assert_eq!(viz.scores, Vec::<i64>::new());
    assert_eq!(viz.votes, Vec::<usize>::new());
    assert!(!viz.inverted);
}

#[test]
fn the_error_says_what_happened() {
    assert_eq!(
        DecodeError::NoReliableFrames.message(),
        "unable to decode watermark: no reliable frames detected"
    );
    assert_eq!(msg_encoder::DecodeError::NoReliableFrames, DecodeError::NoReliableFrames);
}
