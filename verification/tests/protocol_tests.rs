use msg_encoder::protocol::{
    build_bit_sequence, decode_length_header, encode_length_header, expand_bytes, pack_bytes,
    pilot_sequence, LENGTH_HEADER_BITS, PILOT_BITS, PILOT_PATTERN, PREAMBLE_BITS,
};

#[test]
fn pilot_is_alternating_from_zero() {
    assert_eq!(PILOT_PATTERN, [0, 1, 0, 1, 0, 1, 0, 1]);
    assert_eq!(msg_encoder::PILOT_PATTERN, PILOT_PATTERN);
    assert_eq!(pilot_sequence(), vec![0, 1, 0, 1, 0, 1, 0, 1]);
    assert_eq!(PILOT_BITS, 8);
    assert_eq!(LENGTH_HEADER_BITS, 16);
    assert_eq!(PREAMBLE_BITS, 24);
}

#[test]
fn bit_sequence_of_hi() {
    let bits = build_bit_sequence("Hi");
    let mut expected: Vec<u8> = Vec::new();
    expected.extend_from_slice(&PILOT_PATTERN);
    expected.extend_from_slice(&[0, 0, 0, 0, 0, 0, 0, 0, 0, 0, 0, 0, 0, 0, 1, 0]);
    expected.extend_from_slice(&[0, 1, 0, 0, 1, 0, 0, 0]);
    expected.extend_from_slice(&[0, 1, 1, 0, 1, 0, 0, 1]);
    assert_eq!(bits, expected);
}

#[test]
fn bit_sequence_of_the_empty_message_is_the_preamble() {
    let bits = build_bit_sequence("");
    assert_eq!(bits.len(), 24);
    assert_eq!(&bits[..8], &PILOT_PATTERN);
    assert_eq!(&bits[8..], &[0u8; 16]);
}

#[test]
fn bit_sequence_counts_bytes_not_characters() {
    // U+00E9 takes two bytes in UTF-8: 0xC3 0xA9.
    let bits = build_bit_sequence("\u{e9}");
    assert_eq!(bits.len(), 24 + 16);
    assert_eq!(decode_length_header(&bits[8..24]), 2);
    assert_eq!(&bits[24..32], &[1, 1, 0, 0, 0, 0, 1, 1]);
    assert_eq!(&bits[32..40], &[1, 0, 1, 0, 1, 0, 0, 1]);
}

#[test]
fn bit_sequence_length_wraps_at_sixteen_bits() {
    let message = "a".repeat(65_537);
    let bits = build_bit_sequence(&message);
    assert_eq!(bits.len(), 24 + 8 * 65_537);
    assert_eq!(decode_length_header(&bits[8..24]), 1);
    let exact = "a".repeat(65_536);
    let bits = build_bit_sequence(&exact);
    assert_eq!(decode_length_header(&bits[8..24]), 0);
}

#[test]
fn header_of_five() {
    assert_eq!(
        encode_length_header(5),
        vec![0, 0, 0, 0, 0, 0, 0, 0, 0, 0, 0, 0, 0, 1, 0, 1]
    );
}

#[test]
fn header_of_the_largest_length() {
    assert_eq!(encode_length_header(65_535), vec![1u8; 16]);
    assert_eq!(encode_length_header(65_536), vec![0u8; 16]);
    assert_eq!(encode_length_header(0x8001)[0], 1);
    assert_eq!(encode_length_header(0x8001)[15], 1);
    assert_eq!(encode_length_header(0x8001)[1..15], [0u8; 14]);
}

#[test]
fn header_round_trip_for_every_value() {
    for value in 0..=65_535usize {
        assert_eq!(decode_length_header(&encode_length_header(value)), value);
    }
}

#[test]
fn header_parses_most_significant_bit_first() {
    let bits = [0u8, 0, 0, 0, 0, 0, 0, 1, 0, 0, 0, 0, 0, 1, 0, 1];
    assert_eq!(decode_length_header(&bits), 261);
}

#[test]
fn header_of_fewer_bits() {
    assert_eq!(decode_length_header(&[]), 0);
    assert_eq!(decode_length_header(&[1]), 1);
    assert_eq!(decode_length_header(&[1, 0, 1]), 5);
}

#[test]
fn header_register_drops_bits_past_the_sixteenth() {
    let mut bits = vec![1u8];
    bits.extend_from_slice(&[0u8; 15]);
    bits.push(1);
    // Seventeen bits: the leading 1 is shifted out.
    assert_eq!(decode_length_header(&bits), 1);
}

#[test]
fn header_reads_only_the_lowest_bit_of_each_element() {
    assert_eq!(decode_length_header(&[3, 2, 255, 4]), 0b1010);
}

#[test]
fn expand_most_significant_bit_first() {
    assert_eq!(expand_bytes(&[0x80]), vec![1, 0, 0, 0, 0, 0, 0, 0]);
    assert_eq!(expand_bytes(&[0x01]), vec![0, 0, 0, 0, 0, 0, 0, 1]);
    assert_eq!(
        expand_bytes(&[0xa5, 0x3c]),
        vec![1, 0, 1, 0, 0, 1, 0, 1, 0, 0, 1, 1, 1, 1, 0, 0]
    );
    assert_eq!(expand_bytes(&[]), Vec::<u8>::new());
}

#[test]
fn pack_most_significant_bit_first() {
    assert_eq!(pack_bytes(&[1, 0, 1, 0, 0, 1, 0, 1], 1), vec![0xa5]);
    assert_eq!(
        pack_bytes(&[0, 1, 1, 0, 1, 0, 0, 0, 0, 1, 1, 0, 1, 0, 0, 1], 2),
        vec![b'h', b'i']
    );
}

#[test]
fn packing_pads_the_last_byte_with_zeros() {
    let bits = [1u8, 0, 1];
    assert_eq!(pack_bytes(&bits, 4), vec![0b1010_0000]);
    let bits = [1u8, 1, 1, 1, 1, 1, 1, 1, 1];
    assert_eq!(pack_bytes(&bits, 2), vec![0xff, 0x80]);
}

#[test]
fn packing_stops_at_the_expected_count() {
    let bits = expand_bytes(b"hello");
    assert_eq!(pack_bytes(&bits, 3), b"hel".to_vec());
    assert_eq!(pack_bytes(&bits, 0), Vec::<u8>::new());
    assert_eq!(pack_bytes(&bits, 5), b"hello".to_vec());
    assert_eq!(pack_bytes(&bits, 9), b"hello".to_vec());
    assert_eq!(pack_bytes(&[], 9), Vec::<u8>::new());
}

#[test]
fn packing_reads_only_the_lowest_bit_of_each_element() {
    assert_eq!(pack_bytes(&[3, 2, 5, 4, 0, 7, 0, 9], 1), vec![0b1010_0101]);
}

#[test]
fn pack_undoes_expand_for_every_byte() {
    let bytes: Vec<u8> = (0..=255u8).collect();
    let bits = expand_bytes(&bytes);
    assert_eq!(bits.len(), 2048);
    assert!(bits.iter().all(|bit| *bit <= 1));
    assert_eq!(pack_bytes(&bits, bytes.len()), bytes);
}

#[test]
fn payload_of_a_built_sequence_packs_to_the_message() {
    let message = "fixed point";
    let bits = build_bit_sequence(message);
    assert_eq!(pack_bytes(&bits[24..], message.len()), message.as_bytes().to_vec());
    assert_eq!(decode_length_header(&bits[8..24]), message.len());
}
