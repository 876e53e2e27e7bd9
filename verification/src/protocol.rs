//! The bit protocol of the watermark.
//!
//! A message travels as one flat sequence of bits, each stored in a byte
//! that is 0 or 1:
//!
//! ```text
//! [ pilot (8) | length header (16) | payload (8 per message byte) ]
//! ```
//!
//! Every field is written most significant bit first. The pilot is the fixed
//! pattern `01010101`; the header holds the message length in bytes, reduced
//! modulo 65536. There is no escaping and no checksum.

use vstd::arithmetic::div_mod::*;
use vstd::arithmetic::power2::*;
use vstd::bits::*;
use vstd::prelude::*;
use vstd::string::*;

verus! {

/// The pilot pattern that opens every bit sequence.
pub const PILOT_PATTERN: [u8; 8] = [0, 1, 0, 1, 0, 1, 0, 1];

/// Number of pilot bits.
pub const PILOT_BITS: usize = 8;

/// Number of bits in the length header.
pub const LENGTH_HEADER_BITS: usize = 16;

/// Number of bits that precede the payload: pilot and length header.
pub const PREAMBLE_BITS: usize = 24;

/// The pilot bit at position `i`: 0 at even positions, 1 at odd ones.
pub open spec fn pilot_bit(i: int) -> u8 {
    if i % 2 == 0 {
        0u8
    } else {
        1u8
    }
}

/// The pilot as a sequence of eight bits.
pub open spec fn pilot_bits() -> Seq<u8> {
    Seq::new(8, |i: int| pilot_bit(i))
}

/// The lowest `width` binary digits of `value`, most significant first.
pub open spec fn msb_first_bits(value: int, width: nat) -> Seq<u8> {
    Seq::new(width, |k: int| ((value / (pow2((width - 1 - k) as nat) as int)) % 2) as u8)
}

/// The number that a bit sequence spells, most significant bit first. Only
/// the lowest bit of each element counts.
pub open spec fn bits_value(bits: Seq<u8>) -> int
    decreases bits.len(),
{
    if bits.len() == 0 {
        0
    } else {
        2 * bits_value(bits.drop_last()) + (bits.last() % 2) as int
    }
}

/// Every byte expanded into its eight bits, most significant first.
pub open spec fn bytes_to_bits(bytes: Seq<u8>) -> Seq<u8> {
    Seq::new(8 * bytes.len(), |k: int| msb_first_bits(bytes[k / 8] as int, 8)[k % 8])
}

/// The sixteen header bits for a message of `len` bytes.
pub open spec fn header_bits(len: int) -> Seq<u8> {
    msb_first_bits(len % 65536, 16)
}

/// The complete bit sequence for a message: pilot, length header, payload.
pub open spec fn bit_sequence(message: Seq<u8>) -> Seq<u8> {
    pilot_bits() + header_bits(message.len() as int) + bytes_to_bits(message)
}

/// The eight bits that make up byte `i` of a packed sequence. Positions past
/// the end of `bits` read as zero.
pub open spec fn byte_chunk(bits: Seq<u8>, i: int) -> Seq<u8> {
    Seq::new(
        8,
        |j: int|
            if 8 * i + j < bits.len() {
                bits[8 * i + j]
            } else {
                0u8
            },
    )
}

/// How many bytes come out of packing `bit_count` bits when `expected` bytes
/// are asked for: a byte is produced as long as at least one of its bits is
/// present, and never more than `expected`.
pub open spec fn packed_len(bit_count: int, expected: int) -> int {
    if expected <= (bit_count + 7) / 8 {
        expected
    } else {
        (bit_count + 7) / 8
    }
}

/// Bits grouped eight at a time into bytes, most significant bit first.
pub open spec fn pack_bits(bits: Seq<u8>, expected: int) -> Seq<u8> {
    Seq::new(
        packed_len(bits.len() as int, expected) as nat,
        |i: int| bits_value(byte_chunk(bits, i)) as u8,
    )
}

/// The value of the length header spelled by `bits`, as a 16-bit register
/// sees it: bits that are shifted past the sixteenth position are lost.
pub open spec fn header_value(bits: Seq<u8>) -> int {
    bits_value(bits) % 65536
}

/// A bit sequence of `n` bits spells a number below `2^n`.
pub proof fn lemma_bits_value_bound(bits: Seq<u8>)
    ensures
        0 <= bits_value(bits) < pow2(bits.len()),
    decreases bits.len(),
{
    if bits.len() == 0 {
        lemma2_to64();
    } else {
        lemma_bits_value_bound(bits.drop_last());
        lemma_pow2_unfold(bits.len());
    }
}

/// Spelling one more bit doubles the value and adds that bit.
pub proof fn lemma_bits_value_push(bits: Seq<u8>, bit: u8)
    ensures
        bits_value(bits.push(bit)) == 2 * bits_value(bits) + (bit % 2) as int,
{
    assert(bits.push(bit).drop_last() =~= bits);
}

/// Reading back the digits of a number gives the number, as far as the
/// digits reach: `bits_value(msb_first_bits(v, w)) == v mod 2^w`.
pub proof fn lemma_bits_value_of_digits(value: int, width: nat)
    requires
        0 <= value,
    ensures
        bits_value(msb_first_bits(value, width)) == value % (pow2(width) as int),
    decreases width,
{
    let digits = msb_first_bits(value, width);
    if width == 0 {
        lemma2_to64();
    } else {
        let w1 = (width - 1) as nat;
        let shorter = msb_first_bits(value / 2, w1);
        lemma_pow2_pos(w1);
        lemma_pow2_unfold(width);
        assert(digits.drop_last() =~= shorter) by {
            assert forall|k: int| 0 <= k < w1 implies digits[k] == shorter[k] by {
                let e = (w1 - 1 - k) as nat;
                lemma_pow2_pos(e);
                lemma_pow2_unfold((e + 1) as nat);
                assert(pow2((width - 1 - k) as nat) == 2 * pow2(e));
                lemma_div_denominator(value, 2, pow2(e) as int);
            }
        }
        assert(digits.last() == (value % 2) as u8) by {
            lemma2_to64();
            assert(pow2((width - 1 - w1) as nat) == 1);
            assert(digits[w1 as int] == ((value / 1) % 2) as u8);
        }
        lemma_bits_value_of_digits(value / 2, w1);
        let p = pow2(w1) as int;
        assert(2 * ((value / 2) % p) + value % 2 == value % (2 * p)) by {
            lemma_fundamental_div_mod(value / 2, p);
            lemma_fundamental_div_mod(value, 2);
            let q = (value / 2) / p;
            let r = 2 * ((value / 2) % p) + value % 2;
            assert(value == q * (2 * p) + r) by (nonlinear_arith)
                requires
                    value / 2 == p * q + (value / 2) % p,
                    value == 2 * (value / 2) + value % 2,
                    r == 2 * ((value / 2) % p) + value % 2,
            ;
            lemma_mod_pos_bound(value / 2, p);
            lemma_fundamental_div_mod_converse(value, 2 * p, q, r);
        }
    }
}

/// Building the 16-bit length header and parsing it again reproduces the
/// value exactly.
pub proof fn lemma_header_round_trip(len: u16)
    ensures
        header_value(header_bits(len as int)) == len,
{
    lemma_bits_value_of_digits(len as int, 16);
    lemma2_to64();
}

/// The header of a built bit sequence spells the message length modulo 65536.
pub proof fn lemma_bit_sequence_header(message: Seq<u8>)
    ensures
        bit_sequence(message).len() == 24 + 8 * message.len(),
        bit_sequence(message).subrange(0, 8) == pilot_bits(),
        header_value(bit_sequence(message).subrange(8, 24)) == message.len() % 65536,
        bit_sequence(message).subrange(24, bit_sequence(message).len() as int) == bytes_to_bits(
            message,
        ),
{
    let bits = bit_sequence(message);
    let len = message.len() as int;
    assert(bits.subrange(0, 8) =~= pilot_bits());
    assert(bits.subrange(8, 24) =~= header_bits(len));
    assert(bits.subrange(24, bits.len() as int) =~= bytes_to_bits(message));
    lemma_bits_value_of_digits(len % 65536, 16);
    lemma2_to64();
}

/// Expanding bytes into bits and packing the bits again gives the bytes
/// back.
pub proof fn lemma_pack_round_trip(bytes: Seq<u8>)
    ensures
        pack_bits(bytes_to_bits(bytes), bytes.len() as int) == bytes,
{
    let bits = bytes_to_bits(bytes);
    let packed = pack_bits(bits, bytes.len() as int);
    assert(packed.len() == bytes.len());
    assert forall|i: int| 0 <= i < bytes.len() implies packed[i] == bytes[i] by {
        let digits = msb_first_bits(bytes[i] as int, 8);
        assert(byte_chunk(bits, i) =~= digits) by {
            assert forall|j: int| 0 <= j < 8 implies byte_chunk(bits, i)[j] == digits[j] by {
                assert((8 * i + j) / 8 == i);
                assert((8 * i + j) % 8 == j);
            }
        }
        lemma_bits_value_of_digits(bytes[i] as int, 8);
        lemma2_to64();
    }
    assert(packed =~= bytes);
}

/// The pilot, as bits.
pub fn pilot_sequence() -> (bits: Vec<u8>)
    ensures
        bits@ == pilot_bits(),
{
    let mut bits: Vec<u8> = Vec::new();
    let mut i: usize = 0;
    while i < 8
        invariant
            i <= 8,
            bits@ =~= pilot_bits().take(i as int),
        decreases 8 - i,
    {
        bits.push(PILOT_PATTERN[i]);
        i += 1;
    }
    bits
}

/// Builds the length header for a message of `len` bytes: the sixteen bits
/// of `len`, most significant first. A length beyond 65535 wraps around.
pub fn encode_length_header(len: usize) -> (bits: Vec<u8>)
    ensures
        bits@ == header_bits(len as int),
{
    let length_header: u16 = (len % 65536) as u16;
    let ghost header = header_bits(len as int);
    let mut bits: Vec<u8> = Vec::new();
    let mut k: u16 = 0;
    while k < 16
        invariant
            k <= 16,
            length_header == len % 65536,
            header == header_bits(len as int),
            bits@ =~= header.take(k as int),
        decreases 16 - k,
    {
        let shift: u16 = 15 - k;
        let bit: u16 = (length_header >> shift) & 1;
        proof {
            lemma_u16_bit(length_header, shift);
        }
        bits.push(bit as u8);
        k += 1;
    }
    bits
}

/// Expands every byte into its eight bits, most significant first.
pub fn expand_bytes(bytes: &[u8]) -> (bits: Vec<u8>)
    ensures
        bits@ == bytes_to_bits(bytes@),
{
    let ghost payload = bytes_to_bits(bytes@);
    let mut bits: Vec<u8> = Vec::new();
    let mut n: usize = 0;
    while n < bytes.len()
        invariant
            n <= bytes@.len(),
            payload == bytes_to_bits(bytes@),
            bits@ =~= payload.take(8 * n),
        decreases bytes@.len() - n,
    {
        let byte: u8 = bytes[n];
        let mut j: u8 = 0;
        while j < 8
            invariant
                j <= 8,
                n < bytes@.len(),
                byte == bytes@[n as int],
                payload == bytes_to_bits(bytes@),
                bits@ =~= payload.take(8 * n + j),
            decreases 8 - j,
        {
            let shift: u8 = 7 - j;
            let bit: u8 = (byte >> shift) & 1;
            proof {
                lemma_u8_bit(byte, shift);
                assert((8 * n + j) / 8 == n as int);
                assert((8 * n + j) % 8 == j as int);
            }
            bits.push(bit);
            j += 1;
        }
        n += 1;
    }
    bits
}

/// Builds the bit sequence for `message`: the pilot, the 16-bit length of
/// the message in bytes, then the bytes themselves, bit by bit.
pub fn build_bit_sequence(message: &str) -> (bits: Vec<u8>)
    ensures
        bits@ == bit_sequence(message.spec_bytes()),
{
    let bytes = message.as_bytes();
    let mut bits = pilot_sequence();
    let mut header = encode_length_header(bytes.len());
    bits.append(&mut header);
    let mut payload = expand_bytes(bytes);
    bits.append(&mut payload);
    bits
}

/// Parses a length header: the bits are shifted, most significant first,
/// into a 16-bit register, and the register is returned.
///
/// The result is a hint and carries no guarantee about the payload: header
/// bits are exposed to channel noise like any other bit.
pub fn decode_length_header(bits: &[u8]) -> (len: usize)
    ensures
        len == header_value(bits@),
{
    let mut len: u16 = 0;
    let mut i: usize = 0;
    while i < bits.len()
        invariant
            i <= bits@.len(),
            len == header_value(bits@.take(i as int)),
        decreases bits@.len() - i,
    {
        let bit: u8 = bits[i];
        proof {
            let before = bits_value(bits@.take(i as int));
            lemma_bits_value_push(bits@.take(i as int), bit);
            assert(bits@.take(i as int).push(bit) =~= bits@.take(i + 1));
            lemma_u16_shift_in(len, bit);
            lemma_register_step(before, (bit % 2) as int);
        }
        len = (len << 1) | ((bit & 1) as u16);
        i += 1;
    }
    assert(bits@.take(i as int) =~= bits@);
    len as usize
}

/// Packs bits into bytes, eight at a time and most significant bit first.
///
/// At most `expected_bytes` bytes are produced. A last byte that has only
/// some of its bits present is filled with zero bits on the right; a byte
/// with none of its bits present is not produced.
pub fn pack_bytes(bits: &[u8], expected_bytes: usize) -> (bytes: Vec<u8>)
    ensures
        bytes@ == pack_bits(bits@, expected_bytes as int),
{
    let total: usize = bits.len();
    let available: usize = total / 8 + (if total % 8 == 0 {
        0
    } else {
        1
    });
    let count: usize = if expected_bytes <= available {
        expected_bytes
    } else {
        available
    };
    assert(count == packed_len(bits@.len() as int, expected_bytes as int));
    let mut bytes: Vec<u8> = Vec::new();
    let mut i: usize = 0;
    while i < count
        invariant
            i <= count,
            total == bits@.len(),
            count == packed_len(bits@.len() as int, expected_bytes as int),
            bytes@ =~= pack_bits(bits@, expected_bytes as int).take(i as int),
        decreases count - i,
    {
        let ghost chunk = byte_chunk(bits@, i as int);
        assert(8 * i < bits@.len()) by {
            assert(i + 1 <= (bits@.len() + 7) / 8);
        }
        let base: usize = 8 * i;
        let mut byte: u8 = 0;
        let mut j: usize = 0;
        while j < 8
            invariant
                j <= 8,
                base == 8 * i,
                base < total,
                total == bits@.len(),
                chunk == byte_chunk(bits@, i as int),
                byte == bits_value(chunk.take(j as int)),
            decreases 8 - j,
        {
            proof {
                lemma_bits_value_bound(chunk.take(j as int));
                lemma2_to64();
                assert(byte < 128) by {
                    lemma_pow2_strictly_increases(j as nat, 8);
                    if j < 7 {
                        lemma_pow2_strictly_increases(j as nat, 7);
                    }
                }
                lemma_bits_value_push(chunk.take(j as int), chunk[j as int]);
                assert(chunk.take(j as int).push(chunk[j as int]) =~= chunk.take(j + 1));
            }
            let bit: u8 = if j < total - base {
                bits[base + j]
            } else {
                0
            };
            proof {
                lemma_u8_shift_in(byte, bit);
            }
            byte = (byte << 1) | (bit & 1);
            j += 1;
        }
        assert(chunk.take(8) =~= chunk);
        bytes.push(byte);
        i += 1;
    }
    bytes
}

/// Shifting one more bit into a 16-bit register that holds `value mod 2^16`
/// leaves it holding `(2 * value + bit) mod 2^16`.
proof fn lemma_register_step(value: int, bit: int)
    ensures
        (2 * (value % 65536) + bit) % 65536 == (2 * value + bit) % 65536,
{
    let q = value / 65536;
    let r = value % 65536;
    lemma_fundamental_div_mod(value, 65536);
    assert(2 * value + bit == 65536 * (2 * q) + (2 * r + bit));
    lemma_mod_multiples_vanish(2 * q, 2 * r + bit, 65536);
}

proof fn lemma_u16_bit(value: u16, shift: u16)
    requires
        shift < 16,
    ensures
        (((value >> shift) & 1) as u8) == header_bits(value as int)[15 - shift],
{
    lemma_u16_shr_is_div(value, shift);
    let shifted: u16 = value >> shift;
    assert(shifted & 1 == shifted % 2) by (bit_vector);
}

proof fn lemma_u8_bit(value: u8, shift: u8)
    requires
        shift < 8,
    ensures
        ((value >> shift) & 1) == msb_first_bits(value as int, 8)[7 - shift],
{
    lemma_u8_shr_is_div(value, shift);
    let shifted: u8 = value >> shift;
    assert(shifted & 1 == shifted % 2) by (bit_vector);
}

proof fn lemma_u16_shift_in(acc: u16, bit: u8)
    ensures
        ((acc << 1) | ((bit & 1) as u16)) == (2 * acc + (bit % 2)) % 65536,
{
    let low: u16 = (bit & 1) as u16;
    assert(low == bit % 2) by (bit_vector)
        requires
            low == (bit & 1) as u16,
    ;
    assert(((acc << 1) | low) == (2 * (acc as u32) + (low as u32)) % 65536) by (bit_vector)
        requires
            low <= 1,
    ;
}

proof fn lemma_u8_shift_in(acc: u8, bit: u8)
    requires
        acc < 128,
    ensures
        ((acc << 1) | (bit & 1)) == 2 * acc + (bit % 2),
{
    assert(((acc << 1) | (bit & 1)) == 2 * acc + (bit % 2)) by (bit_vector)
        requires
            acc < 128,
    ;
}

} // verus!
