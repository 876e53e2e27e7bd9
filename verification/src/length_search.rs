//! Choosing the payload length.
//!
//! The length header crosses the same noisy channel as the payload, so it is
//! taken as a hint only. Every length from one byte up to what the payload
//! bits can hold is a candidate, and each candidate of `n` bytes, `p` of them
//! printable, is scored
//!
//! ```text
//! 2 * p / n  +  n / 20  +  1 / (10 * (1 + |n - hint|))
//! ```
//!
//! The candidate with the highest score wins; among equals the shortest.
//! Scores are compared as exact fractions, so a tie is a tie.

use vstd::prelude::*;

verus! {

/// The longest payload, in bytes, that the search accepts. Within this bound
/// the cross-multiplied scores of two candidates fit in 128 bits.
pub const MAX_PAYLOAD_BYTES: usize = 16_777_216;

/// Printable ASCII (space through tilde) or ASCII whitespace (tab, line
/// feed, form feed, carriage return).
pub open spec fn is_printable(byte: u8) -> bool {
    (0x20 <= byte <= 0x7e) || byte == 0x09 || byte == 0x0a || byte == 0x0c || byte == 0x0d
}

/// Number of printable bytes in `bytes`.
pub open spec fn printable_count(bytes: Seq<u8>) -> int
    decreases bytes.len(),
{
    if bytes.len() == 0 {
        0
    } else {
        printable_count(bytes.drop_last()) + if is_printable(bytes.last()) {
            1int
        } else {
            0int
        }
    }
}

/// Distance between a candidate length and the header hint.
pub open spec fn hint_distance(hint: int, n: int) -> int {
    if n >= hint {
        n - hint
    } else {
        hint - n
    }
}

/// Numerator of the score of a candidate of `n` bytes, `printable` of them
/// printable, over `score_den(hint, n)`.
pub open spec fn score_numerator(printable: int, hint: int, n: int) -> int {
    let e = 1 + hint_distance(hint, n);
    40 * printable * e + n * n * e + 2 * n
}

/// Numerator of the score of the candidate made of the first `n` bytes,
/// over `score_den(hint, n)`.
pub open spec fn score_num(bytes: Seq<u8>, hint: int, n: int) -> int {
    score_numerator(printable_count(bytes.take(n)), hint, n)
}

/// Denominator of the score of a candidate of `n` bytes: `20 * n * (1 + |n - hint|)`.
pub open spec fn score_den(hint: int, n: int) -> int {
    20 * n * (1 + hint_distance(hint, n))
}

/// Candidate `a` scores strictly higher than candidate `b`.
pub open spec fn scores_higher(bytes: Seq<u8>, hint: int, a: int, b: int) -> bool {
    score_num(bytes, hint, a) * score_den(hint, b) > score_num(bytes, hint, b) * score_den(hint, a)
}

/// `n` is the length the search settles on: no candidate scores higher, and
/// every shorter candidate scores strictly lower. With no bytes at all the
/// length is zero.
pub open spec fn is_chosen_length(bytes: Seq<u8>, hint: int, n: int) -> bool {
    if bytes.len() == 0 {
        n == 0
    } else {
        &&& 1 <= n <= bytes.len()
        &&& forall|m: int| 1 <= m <= bytes.len() ==> !#[trigger] scores_higher(bytes, hint, m, n)
        &&& forall|m: int| 1 <= m < n ==> #[trigger] scores_higher(bytes, hint, n, m)
    }
}

/// The length the search settles on.
pub open spec fn chosen_length(bytes: Seq<u8>, hint: int) -> int {
    choose|n: int| is_chosen_length(bytes, hint, n)
}

/// The chosen length is unique.
pub proof fn lemma_chosen_length_unique(bytes: Seq<u8>, hint: int, a: int, b: int)
    requires
        is_chosen_length(bytes, hint, a),
        is_chosen_length(bytes, hint, b),
    ensures
        a == b,
{
    if bytes.len() > 0 {
        if a < b {
            assert(scores_higher(bytes, hint, b, a));
        } else if b < a {
            assert(scores_higher(bytes, hint, a, b));
        }
    }
}

/// Whatever satisfies `is_chosen_length` is the chosen length.
pub proof fn lemma_chosen_length_is(bytes: Seq<u8>, hint: int, n: int)
    requires
        is_chosen_length(bytes, hint, n),
    ensures
        chosen_length(bytes, hint) == n,
{
    lemma_chosen_length_unique(bytes, hint, n, chosen_length(bytes, hint));
}

/// The printable count of a prefix never exceeds its length.
pub proof fn lemma_printable_count_bound(bytes: Seq<u8>)
    ensures
        0 <= printable_count(bytes) <= bytes.len(),
    decreases bytes.len(),
{
    if bytes.len() > 0 {
        lemma_printable_count_bound(bytes.drop_last());
    }
}

/// Taking one more byte adds one to the count exactly when that byte is
/// printable.
pub proof fn lemma_printable_count_step(bytes: Seq<u8>, n: int)
    requires
        0 <= n < bytes.len(),
    ensures
        printable_count(bytes.take(n + 1)) == printable_count(bytes.take(n)) + if is_printable(
            bytes[n],
        ) {
            1int
        } else {
            0int
        },
{
    assert(bytes.take(n + 1).drop_last() =~= bytes.take(n));
}

/// The denominator of a score is positive.
pub proof fn lemma_score_den_positive(hint: int, n: int)
    requires
        1 <= n,
    ensures
        score_den(hint, n) > 0,
{
    let e = 1 + hint_distance(hint, n);
    assert(20 * n * e > 0) by (nonlinear_arith)
        requires
            n >= 1,
            e >= 1,
    ;
}

/// Among the candidates of 1 to `k` bytes there is one that none scores
/// higher than and that scores higher than every shorter one.
proof fn lemma_best_candidate(bytes: Seq<u8>, hint: int, k: int) -> (n: int)
    requires
        1 <= k,
    ensures
        1 <= n <= k,
        forall|m: int| 1 <= m <= k ==> !#[trigger] scores_higher(bytes, hint, m, n),
        forall|m: int| 1 <= m < n ==> #[trigger] scores_higher(bytes, hint, n, m),
    decreases k,
{
    if k == 1 {
        1
    } else {
        let best = lemma_best_candidate(bytes, hint, k - 1);
        if scores_higher(bytes, hint, k, best) {
            assert forall|m: int| 1 <= m < k implies #[trigger] scores_higher(bytes, hint, k, m) by {
                assert(!scores_higher(bytes, hint, m, best));
                lemma_score_den_positive(hint, m);
                lemma_score_den_positive(hint, best);
                lemma_score_den_positive(hint, k);
                lemma_fraction_chain(
                    score_num(bytes, hint, m),
                    score_den(hint, m),
                    score_num(bytes, hint, best),
                    score_den(hint, best),
                    score_num(bytes, hint, k),
                    score_den(hint, k),
                );
            }
            assert forall|m: int| 1 <= m <= k implies !#[trigger] scores_higher(
                bytes,
                hint,
                m,
                k,
            ) by {
                if m < k {
                    assert(scores_higher(bytes, hint, k, m));
                }
            }
            k
        } else {
            best
        }
    }
}

/// The search always settles on a length.
pub proof fn lemma_chosen_length_exists(bytes: Seq<u8>, hint: int)
    ensures
        is_chosen_length(bytes, hint, chosen_length(bytes, hint)),
{
    if bytes.len() == 0 {
        assert(is_chosen_length(bytes, hint, 0));
    } else {
        let n = lemma_best_candidate(bytes, hint, bytes.len() as int);
        assert(is_chosen_length(bytes, hint, n));
    }
}

/// Where every byte is printable, the printable count is the length.
pub proof fn lemma_all_printable_count(bytes: Seq<u8>)
    requires
        forall|i: int| 0 <= i < bytes.len() ==> is_printable(#[trigger] bytes[i]),
    ensures
        printable_count(bytes) == bytes.len(),
    decreases bytes.len(),
{
    if bytes.len() > 0 {
        lemma_all_printable_count(bytes.drop_last());
    }
}

/// A payload of printable bytes whose length the header states correctly
/// is chosen whole: the full length scores strictly higher than every
/// shorter candidate.
pub proof fn lemma_true_length_is_chosen(bytes: Seq<u8>)
    requires
        forall|i: int| 0 <= i < bytes.len() ==> is_printable(#[trigger] bytes[i]),
    ensures
        chosen_length(bytes, bytes.len() as int) == bytes.len(),
{
    let len = bytes.len() as int;
    let hint = len;
    if len > 0 {
        assert(bytes.take(len) =~= bytes);
        lemma_all_printable_count(bytes);
        let num_len = score_num(bytes, hint, len);
        let den_len = score_den(hint, len);
        assert(num_len == 40 * len + len * len + 2 * len) by (nonlinear_arith)
            requires
                num_len == 40 * len * 1 + len * len * 1 + 2 * len,
        ;
        assert(den_len == 20 * len) by (nonlinear_arith)
            requires
                den_len == 20 * len * 1,
        ;
        assert forall|m: int| 1 <= m < len implies #[trigger] scores_higher(bytes, hint, len, m) by {
            let p = printable_count(bytes.take(m));
            let e = 1 + (len - m);
            lemma_printable_count_bound(bytes.take(m));
            let num_m = score_num(bytes, hint, m);
            let den_m = score_den(hint, m);
            assert(num_m == 40 * p * e + m * m * e + 2 * m);
            assert(den_m == 20 * m * e);
            lemma_full_length_wins(len, m, p, e, num_m, den_m);
        }
        assert forall|m: int| 1 <= m <= len implies !#[trigger] scores_higher(
            bytes,
            hint,
            m,
            len,
        ) by {
            if m < len {
                assert(scores_higher(bytes, hint, len, m));
            }
        }
        assert(is_chosen_length(bytes, hint, len));
    }
    lemma_chosen_length_is(bytes, hint, len);
}

/// The arithmetic behind `lemma_true_length_is_chosen`: with `e = 1 + len - m`
/// at least 2 and no more than `m` printable bytes among the first `m`,
/// `2 + len/20 + 1/10` exceeds `2p/m + m/20 + 1/(10e)`.
proof fn lemma_full_length_wins(len: int, m: int, p: int, e: int, num_m: int, den_m: int)
    requires
        1 <= m < len,
        0 <= p <= m,
        e == 1 + (len - m),
        num_m == 40 * p * e + m * m * e + 2 * m,
        den_m == 20 * m * e,
    ensures
        (40 * len + len * len + 2 * len) * den_m > num_m * (20 * len),
{
    let bound = 40 * m * e + m * m * e + 2 * m;
    assert(40 * p * e <= 40 * m * e) by (nonlinear_arith)
        requires
            0 <= p <= m,
            e >= 2,
    ;
    assert(num_m <= bound);
    assert(bound == m * (40 * e + m * e + 2)) by (nonlinear_arith)
        requires
            bound == 40 * m * e + m * m * e + 2 * m,
    ;
    assert(40 * e + m * e + 2 < 42 * e + len * e) by (nonlinear_arith)
        requires
            e == 1 + (len - m),
            e >= 2,
    ;
    let lhs = (40 * len + len * len + 2 * len) * den_m;
    assert(lhs == 20 * len * m * (42 * e + len * e)) by (nonlinear_arith)
        requires
            lhs == (40 * len + len * len + 2 * len) * den_m,
            den_m == 20 * m * e,
    ;
    assert(bound * (20 * len) == 20 * len * m * (40 * e + m * e + 2)) by (nonlinear_arith)
        requires
            bound == m * (40 * e + m * e + 2),
    ;
    assert(20 * len * m * (40 * e + m * e + 2) < 20 * len * m * (42 * e + len * e))
        by (nonlinear_arith)
        requires
            40 * e + m * e + 2 < 42 * e + len * e,
            len >= 1,
            m >= 1,
    ;
    assert(num_m * (20 * len) <= bound * (20 * len)) by (nonlinear_arith)
        requires
            num_m <= bound,
            len >= 1,
    ;
}

/// Fractions with positive denominators: `a1/b1 <= a2/b2 < a3/b3` gives
/// `a1/b1 < a3/b3`.
proof fn lemma_fraction_chain(a1: int, b1: int, a2: int, b2: int, a3: int, b3: int)
    requires
        b1 > 0,
        b2 > 0,
        b3 > 0,
        a1 * b2 <= a2 * b1,
        a2 * b3 < a3 * b2,
    ensures
        a1 * b3 < a3 * b1,
{
    assert(a1 * b2 * b3 <= a2 * b1 * b3) by (nonlinear_arith)
        requires
            a1 * b2 <= a2 * b1,
            b3 > 0,
    ;
    assert(a2 * b3 * b1 < a3 * b2 * b1) by (nonlinear_arith)
        requires
            a2 * b3 < a3 * b2,
            b1 > 0,
    ;
    assert(a2 * b1 * b3 == a2 * b3 * b1) by (nonlinear_arith);
    assert(a1 * b3 < a3 * b1) by (nonlinear_arith)
        requires
            a1 * b2 * b3 < a3 * b2 * b1,
            b2 > 0,
    ;
}

/// Bounds on the two parts of a score within the accepted payload size.
proof fn lemma_score_bounds(bytes: Seq<u8>, hint: int, n: int)
    requires
        1 <= n <= bytes.len() <= MAX_PAYLOAD_BYTES,
        0 <= hint <= 65535,
    ensures
        0 <= score_num(bytes, hint, n) <= 0x200_0000_0000_0000_0000,
        0 < score_den(hint, n) <= 0x40_0000_0000_0000,
{
    let p = printable_count(bytes.take(n));
    let e = 1 + hint_distance(hint, n);
    lemma_printable_count_bound(bytes.take(n));
    assert(1 <= e <= 16_777_217);
    assert(0 <= p * e <= 16_777_216 * 16_777_217) by (nonlinear_arith)
        requires
            0 <= p <= 16_777_216,
            1 <= e <= 16_777_217,
    ;
    assert(1 <= n * e <= 16_777_216 * 16_777_217) by (nonlinear_arith)
        requires
            1 <= n <= 16_777_216,
            1 <= e <= 16_777_217,
    ;
    assert(1 <= n * n <= 16_777_216 * 16_777_216) by (nonlinear_arith)
        requires
            1 <= n <= 16_777_216,
    ;
    assert(0 <= n * n * e <= 16_777_216 * 16_777_216 * 16_777_217) by (nonlinear_arith)
        requires
            1 <= n * n <= 16_777_216 * 16_777_216,
            1 <= e <= 16_777_217,
    ;
    assert(40 * p * e == 40 * (p * e)) by (nonlinear_arith);
    assert(20 * n * e == 20 * (n * e)) by (nonlinear_arith);
}

/// Finds the payload length for `bytes`, the bytes packed from every payload
/// bit that was received, given the length that the header spelled.
pub fn choose_length(bytes: &Vec<u8>, header_len: u16) -> (n: usize)
    requires
        bytes.len() <= MAX_PAYLOAD_BYTES,
    ensures
        is_chosen_length(bytes@, header_len as int, n as int),
        n == chosen_length(bytes@, header_len as int),
{
    let total: usize = bytes.len();
    if total == 0 {
        proof {
            lemma_chosen_length_is(bytes@, header_len as int, 0);
        }
        return 0;
    }
    let ghost hint = header_len as int;
    let mut printable: usize = if byte_is_printable(bytes[0]) {
        1
    } else {
        0
    };
    proof {
        lemma_printable_count_step(bytes@, 0);
        assert(printable_count(bytes@.take(0)) == 0);
        lemma_score_bounds(bytes@, hint, 1);
    }
    let mut best: usize = 1;
    let (mut best_num, mut best_den) = candidate_score(printable, 1, header_len);
    let mut k: usize = 1;
    while k < total
        invariant
            1 <= k <= total,
            total == bytes@.len(),
            total <= MAX_PAYLOAD_BYTES,
            hint == header_len as int,
            printable == printable_count(bytes@.take(k as int)),
            1 <= best <= k,
            best_num == score_num(bytes@, hint, best as int),
            best_den == score_den(hint, best as int),
            forall|m: int| 1 <= m <= k ==> !#[trigger] scores_higher(bytes@, hint, m, best as int),
            forall|m: int| 1 <= m < best ==> #[trigger] scores_higher(bytes@, hint, best as int, m),
        decreases total - k,
    {
        proof {
            lemma_printable_count_step(bytes@, k as int);
            lemma_printable_count_bound(bytes@.take(k as int));
        }
        if byte_is_printable(bytes[k]) {
            printable = printable + 1;
        }
        let n: usize = k + 1;
        proof {
            lemma_score_bounds(bytes@, hint, n as int);
            lemma_score_bounds(bytes@, hint, best as int);
        }
        let (num, den) = candidate_score(printable, n, header_len);
        proof {
            assert(num * best_den <= 0x200_0000_0000_0000_0000 * 0x40_0000_0000_0000)
                by (nonlinear_arith)
                requires
                    0 <= num <= 0x200_0000_0000_0000_0000,
                    0 <= best_den <= 0x40_0000_0000_0000,
            ;
            assert(best_num * den <= 0x200_0000_0000_0000_0000 * 0x40_0000_0000_0000)
                by (nonlinear_arith)
                requires
                    0 <= best_num <= 0x200_0000_0000_0000_0000,
                    0 <= den <= 0x40_0000_0000_0000,
            ;
        }
        if num * best_den > best_num * den {
            proof {
                let old_best = best as int;
                assert(scores_higher(bytes@, hint, n as int, old_best));
                assert forall|m: int| 1 <= m <= k implies scores_higher(
                    bytes@,
                    hint,
                    n as int,
                    m,
                ) by {
                    assert(!scores_higher(bytes@, hint, m, old_best));
                    lemma_score_bounds(bytes@, hint, m);
                    lemma_fraction_chain(
                        score_num(bytes@, hint, m),
                        score_den(hint, m),
                        score_num(bytes@, hint, old_best),
                        score_den(hint, old_best),
                        score_num(bytes@, hint, n as int),
                        score_den(hint, n as int),
                    );
                }
                assert forall|m: int| 1 <= m <= n implies !#[trigger] scores_higher(
                    bytes@,
                    hint,
                    m,
                    n as int,
                ) by {
                    if m <= k {
                        assert(scores_higher(bytes@, hint, n as int, m));
                    }
                }
            }
            best = n;
            best_num = num;
            best_den = den;
        } else {
            proof {
                assert(!scores_higher(bytes@, hint, n as int, best as int));
            }
        }
        k = n;
    }
    proof {
        lemma_chosen_length_is(bytes@, hint, best as int);
    }
    best
}

/// Whether `byte` is printable ASCII or ASCII whitespace.
pub fn byte_is_printable(byte: u8) -> (r: bool)
    ensures
        r == is_printable(byte),
{
    (0x20 <= byte && byte <= 0x7e) || byte == 0x09 || byte == 0x0a || byte == 0x0c || byte
        == 0x0d
}

fn distance_plus_one(n: usize, header_len: u16) -> (e: u128)
    requires
        n <= MAX_PAYLOAD_BYTES,
    ensures
        e == 1 + hint_distance(header_len as int, n as int),
{
    let n: u128 = n as u128;
    let h: u128 = header_len as u128;
    if n >= h {
        1 + (n - h)
    } else {
        1 + (h - n)
    }
}

/// The score of a candidate of `n` bytes, `printable` of them printable,
/// against the header hint: numerator and denominator of
/// `2 * printable / n + n / 20 + 1 / (10 * (1 + |n - hint|))`
/// over the common denominator `20 * n * (1 + |n - hint|)`.
pub fn candidate_score(printable: usize, n: usize, header_len: u16) -> (score: (u128, u128))
    requires
        1 <= n <= MAX_PAYLOAD_BYTES,
        printable <= n,
    ensures
        score.0 == score_numerator(printable as int, header_len as int, n as int),
        score.1 == score_den(header_len as int, n as int),
{
    let e: u128 = distance_plus_one(n, header_len);
    let p: u128 = printable as u128;
    let n: u128 = n as u128;
    proof {
        assert(0 <= p * e <= 16_777_216 * 16_777_217) by (nonlinear_arith)
            requires
                0 <= p <= 16_777_216,
                1 <= e <= 16_777_217,
        ;
        assert(1 <= n * e <= 16_777_216 * 16_777_217) by (nonlinear_arith)
            requires
                1 <= n <= 16_777_216,
                1 <= e <= 16_777_217,
        ;
        assert(1 <= n * n <= 16_777_216 * 16_777_216) by (nonlinear_arith)
            requires
                1 <= n <= 16_777_216,
        ;
        assert(0 <= n * n * e <= 16_777_216 * 16_777_216 * 16_777_217) by (nonlinear_arith)
            requires
                1 <= n * n <= 16_777_216 * 16_777_216,
                1 <= e <= 16_777_217,
        ;
        assert(40 * p * e == 40 * (p * e)) by (nonlinear_arith);
        assert(20 * n * e == 20 * (n * e)) by (nonlinear_arith);
    }
    (40 * (p * e) + n * n * e + 2 * n, 20 * (n * e))
}

} // verus!
