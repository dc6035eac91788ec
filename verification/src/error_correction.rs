//! Hamming(31,26) SEC-DED error correction.
//!
//! Each 26 data bits become a 32-bit code word: five parity bits sit at the
//! power-of-two positions 1, 2, 4, 8, 16 of the 31-bit Hamming field, and the
//! top bit carries even parity over the whole field.  A single flipped bit is
//! corrected, a double flip is detected and reported.

use crate::bits::{
    bits_in_range, bits_val, lemma_bits_val_bound, lemma_bits_val_byte, lemma_bits_val_congr,
    lemma_bits_val_shifted_bit, lemma_stream_bits_in_range, read_bits, stream_bits,
};
use crate::errors::VortexError;
use vstd::arithmetic::div_mod::lemma_fundamental_div_mod;
use vstd::arithmetic::power2::{lemma2_to64, lemma_pow2_strictly_increases, pow2};
use vstd::prelude::*;

verus! {

/// Outcome of checking one code word.
/// With more than two flipped bits in a word the outcome is meaningless.
#[derive(Clone, Copy, Debug, PartialEq, Eq, Structural)]
pub enum HammingStatus {
    /// No error detected.
    NoError,
    /// Single bit error found and corrected.
    CorrectedSingle,
    /// Double bit error found, not correctable.
    Uncorrectable,
}

/// Number of correctable and uncorrectable errors found while decoding.
#[derive(Clone, Copy, Debug, PartialEq, Eq, Structural)]
pub struct HammingReport {
    /// Single bit errors found and corrected.
    pub corrected_errors: u32,
    /// Double bit errors found and unable to be corrected.
    pub uncorrected_errors: u32,
}

/// Parity over the code-word bits whose 1-based position has bit 0 set.
pub open spec fn syndrome_bit1(w: u32) -> u32 {
    (w ^ (w >> 2) ^ (w >> 4) ^ (w >> 6) ^ (w >> 8) ^ (w >> 10) ^ (w >> 12) ^ (w >> 14) ^ (w >> 16)
        ^ (w >> 18) ^ (w >> 20) ^ (w >> 22) ^ (w >> 24) ^ (w >> 26) ^ (w >> 28) ^ (w >> 30)) & 1
}

/// Parity over the code-word bits whose 1-based position has bit 1 set.
pub open spec fn syndrome_bit2(w: u32) -> u32 {
    ((w >> 1) ^ (w >> 2) ^ (w >> 5) ^ (w >> 6) ^ (w >> 9) ^ (w >> 10) ^ (w >> 13) ^ (w >> 14) ^ (w
        >> 17) ^ (w >> 18) ^ (w >> 21) ^ (w >> 22) ^ (w >> 25) ^ (w >> 26) ^ (w >> 29) ^ (w >> 30))
        & 1
}

/// Parity over the code-word bits whose 1-based position has bit 2 set.
pub open spec fn syndrome_bit3(w: u32) -> u32 {
    ((w >> 3) ^ (w >> 4) ^ (w >> 5) ^ (w >> 6) ^ (w >> 11) ^ (w >> 12) ^ (w >> 13) ^ (w >> 14) ^ (w
        >> 19) ^ (w >> 20) ^ (w >> 21) ^ (w >> 22) ^ (w >> 27) ^ (w >> 28) ^ (w >> 29) ^ (w >> 30))
        & 1
}

/// Parity over the code-word bits whose 1-based position has bit 3 set.
pub open spec fn syndrome_bit4(w: u32) -> u32 {
    ((w >> 7) ^ (w >> 8) ^ (w >> 9) ^ (w >> 10) ^ (w >> 11) ^ (w >> 12) ^ (w >> 13) ^ (w >> 14) ^ (
    w >> 23) ^ (w >> 24) ^ (w >> 25) ^ (w >> 26) ^ (w >> 27) ^ (w >> 28) ^ (w >> 29) ^ (w >> 30))
        & 1
}

/// Parity over the code-word bits whose 1-based position has bit 4 set.
pub open spec fn syndrome_bit5(w: u32) -> u32 {
    ((w >> 15) ^ (w >> 16) ^ (w >> 17) ^ (w >> 18) ^ (w >> 19) ^ (w >> 20) ^ (w >> 21) ^ (w >> 22)
        ^ (w >> 23) ^ (w >> 24) ^ (w >> 25) ^ (w >> 26) ^ (w >> 27) ^ (w >> 28) ^ (w >> 29) ^ (w
        >> 30)) & 1
}

/// Even parity over the low 31 bits of `w`.
pub open spec fn parity_31(w: u32) -> u32 {
    (w ^ (w >> 1) ^ (w >> 2) ^ (w >> 3) ^ (w >> 4) ^ (w >> 5) ^ (w >> 6) ^ (w >> 7) ^ (w >> 8) ^ (w
        >> 9) ^ (w >> 10) ^ (w >> 11) ^ (w >> 12) ^ (w >> 13) ^ (w >> 14) ^ (w >> 15) ^ (w >> 16)
        ^ (w >> 17) ^ (w >> 18) ^ (w >> 19) ^ (w >> 20) ^ (w >> 21) ^ (w >> 22) ^ (w >> 23) ^ (w
        >> 24) ^ (w >> 25) ^ (w >> 26) ^ (w >> 27) ^ (w >> 28) ^ (w >> 29) ^ (w >> 30)) & 1
}

/// Even parity over all 32 bits of `w`.
pub open spec fn parity_32(w: u32) -> u32 {
    (w ^ (w >> 1) ^ (w >> 2) ^ (w >> 3) ^ (w >> 4) ^ (w >> 5) ^ (w >> 6) ^ (w >> 7) ^ (w >> 8) ^ (w
        >> 9) ^ (w >> 10) ^ (w >> 11) ^ (w >> 12) ^ (w >> 13) ^ (w >> 14) ^ (w >> 15) ^ (w >> 16)
        ^ (w >> 17) ^ (w >> 18) ^ (w >> 19) ^ (w >> 20) ^ (w >> 21) ^ (w >> 22) ^ (w >> 23) ^ (w
        >> 24) ^ (w >> 25) ^ (w >> 26) ^ (w >> 27) ^ (w >> 28) ^ (w >> 29) ^ (w >> 30) ^ (w >> 31))
        & 1
}

/// Spread 26 data bits over the non-power-of-two positions of the Hamming
/// field: data bit 0 lands at field bit 2, bits 1-3 at 4-6, bits 4-10 at
/// 8-14 and bits 11-25 at 16-30.
pub open spec fn place_data_bits(d: u32) -> u32 {
    ((d & 0x1) << 2) | ((d & 0xE) << 3) | ((d & 0x7F0) << 4) | ((d & 0x3FF_F800) << 5)
}

/// Collect the 26 data bits back out of a Hamming field.
pub open spec fn extract_data_bits(c: u32) -> u32 {
    ((c >> 2) & 0x1) | ((c >> 3) & 0xE) | ((c >> 4) & 0x7F0) | ((c >> 5) & 0x3FF_F800)
}

/// The five parity bits of a data-only field, placed at bits 0, 1, 3, 7, 15.
pub open spec fn code_parity_bits(w: u32) -> u32 {
    syndrome_bit1(w) | (syndrome_bit2(w) << 1) | (syndrome_bit3(w) << 3) | (syndrome_bit4(w) << 7)
        | (syndrome_bit5(w) << 15)
}

/// The full 32-bit code word for 26 data bits.
pub open spec fn hamming_code_word(d: u32) -> u32 {
    let w = place_data_bits(d & 0x03FF_FFFF);
    let f = w | code_parity_bits(w);
    f | (parity_31(f) << 31)
}

/// The 5-bit syndrome of a received word, read over its low 31 bits.
pub open spec fn word_syndrome(c: u32) -> u32 {
    syndrome_bit1(c) | (syndrome_bit2(c) << 1) | (syndrome_bit3(c) << 2) | (syndrome_bit4(c) << 3)
        | (syndrome_bit5(c) << 4)
}

/// Overall parity of a received word, over all 32 bits.
pub open spec fn word_parity(c: u32) -> u32 {
    parity_32(c)
}

/// The Hamming field after correction: when the syndrome points at a bit and
/// the overall parity confirms a single error, that bit is flipped.
pub open spec fn corrected_code_word(c: u32) -> u32 {
    let h = c & 0x7FFF_FFFF;
    if word_syndrome(c) != 0 && word_parity(c) == 1 {
        h ^ (1u32 << ((word_syndrome(c) - 1) as u32))
    } else {
        h
    }
}

/// The 26 data bits recovered from a received word.
pub open spec fn word_data(c: u32) -> u32 {
    extract_data_bits(corrected_code_word(c))
}

/// What checking a received word reports.
pub open spec fn word_status(c: u32) -> HammingStatus {
    if word_syndrome(c) == 0 && word_parity(c) == 0 {
        HammingStatus::NoError
    } else if word_parity(c) == 1 {
        HammingStatus::CorrectedSingle
    } else {
        HammingStatus::Uncorrectable
    }
}

/// Takes 26 bits and encodes them as 32 bits with a Hamming(31,26) code
/// and an additional parity bit over all other bits.
pub fn hamming_31_26_encode(data_bits: u32) -> (r: u32)
    ensures
        r == hamming_code_word(data_bits),
{
    let d: u32 = data_bits & 0x03FF_FFFF;
    let w: u32 = ((d & 0x1) << 2) | ((d & 0xE) << 3) | ((d & 0x7F0) << 4) | ((d & 0x3FF_F800)
        << 5);
    let p1: u32 = (w ^ (w >> 2) ^ (w >> 4) ^ (w >> 6) ^ (w >> 8) ^ (w >> 10) ^ (w >> 12) ^ (w
        >> 14) ^ (w >> 16) ^ (w >> 18) ^ (w >> 20) ^ (w >> 22) ^ (w >> 24) ^ (w >> 26) ^ (w >> 28)
        ^ (w >> 30)) & 1;
    let p2: u32 = ((w >> 1) ^ (w >> 2) ^ (w >> 5) ^ (w >> 6) ^ (w >> 9) ^ (w >> 10) ^ (w >> 13) ^ (
    w >> 14) ^ (w >> 17) ^ (w >> 18) ^ (w >> 21) ^ (w >> 22) ^ (w >> 25) ^ (w >> 26) ^ (w >> 29)
        ^ (w >> 30)) & 1;
    let p3: u32 = ((w >> 3) ^ (w >> 4) ^ (w >> 5) ^ (w >> 6) ^ (w >> 11) ^ (w >> 12) ^ (w >> 13)
        ^ (w >> 14) ^ (w >> 19) ^ (w >> 20) ^ (w >> 21) ^ (w >> 22) ^ (w >> 27) ^ (w >> 28) ^ (w
        >> 29) ^ (w >> 30)) & 1;
    let p4: u32 = ((w >> 7) ^ (w >> 8) ^ (w >> 9) ^ (w >> 10) ^ (w >> 11) ^ (w >> 12) ^ (w >> 13)
        ^ (w >> 14) ^ (w >> 23) ^ (w >> 24) ^ (w >> 25) ^ (w >> 26) ^ (w >> 27) ^ (w >> 28) ^ (w
        >> 29) ^ (w >> 30)) & 1;
    let p5: u32 = ((w >> 15) ^ (w >> 16) ^ (w >> 17) ^ (w >> 18) ^ (w >> 19) ^ (w >> 20) ^ (w
        >> 21) ^ (w >> 22) ^ (w >> 23) ^ (w >> 24) ^ (w >> 25) ^ (w >> 26) ^ (w >> 27) ^ (w >> 28)
        ^ (w >> 29) ^ (w >> 30)) & 1;
    let cp: u32 = p1 | (p2 << 1) | (p3 << 3) | (p4 << 7) | (p5 << 15);
    let f: u32 = w | cp;
    let ov: u32 = (f ^ (f >> 1) ^ (f >> 2) ^ (f >> 3) ^ (f >> 4) ^ (f >> 5) ^ (f >> 6) ^ (f >> 7)
        ^ (f >> 8) ^ (f >> 9) ^ (f >> 10) ^ (f >> 11) ^ (f >> 12) ^ (f >> 13) ^ (f >> 14) ^ (f
        >> 15) ^ (f >> 16) ^ (f >> 17) ^ (f >> 18) ^ (f >> 19) ^ (f >> 20) ^ (f >> 21) ^ (f >> 22)
        ^ (f >> 23) ^ (f >> 24) ^ (f >> 25) ^ (f >> 26) ^ (f >> 27) ^ (f >> 28) ^ (f >> 29) ^ (f
        >> 30)) & 1;
    f | (ov << 31)
}

/// Takes a 32-bit word holding 26 data bits, 5 Hamming parity bits and one
/// overall parity bit; corrects a single flipped bit where possible and
/// reports what was found.
pub fn hamming_31_26_decode(code_word: u32) -> (r: (u32, HammingStatus))
    ensures
        r.0 == word_data(code_word),
        r.1 == word_status(code_word),
{
    let c: u32 = code_word;
    let s1: u32 = (c ^ (c >> 2) ^ (c >> 4) ^ (c >> 6) ^ (c >> 8) ^ (c >> 10) ^ (c >> 12) ^ (c
        >> 14) ^ (c >> 16) ^ (c >> 18) ^ (c >> 20) ^ (c >> 22) ^ (c >> 24) ^ (c >> 26) ^ (c >> 28)
        ^ (c >> 30)) & 1;
    let s2: u32 = ((c >> 1) ^ (c >> 2) ^ (c >> 5) ^ (c >> 6) ^ (c >> 9) ^ (c >> 10) ^ (c >> 13) ^ (
    c >> 14) ^ (c >> 17) ^ (c >> 18) ^ (c >> 21) ^ (c >> 22) ^ (c >> 25) ^ (c >> 26) ^ (c >> 29)
        ^ (c >> 30)) & 1;
    let s3: u32 = ((c >> 3) ^ (c >> 4) ^ (c >> 5) ^ (c >> 6) ^ (c >> 11) ^ (c >> 12) ^ (c >> 13)
        ^ (c >> 14) ^ (c >> 19) ^ (c >> 20) ^ (c >> 21) ^ (c >> 22) ^ (c >> 27) ^ (c >> 28) ^ (c
        >> 29) ^ (c >> 30)) & 1;
    let s4: u32 = ((c >> 7) ^ (c >> 8) ^ (c >> 9) ^ (c >> 10) ^ (c >> 11) ^ (c >> 12) ^ (c >> 13)
        ^ (c >> 14) ^ (c >> 23) ^ (c >> 24) ^ (c >> 25) ^ (c >> 26) ^ (c >> 27) ^ (c >> 28) ^ (c
        >> 29) ^ (c >> 30)) & 1;
    let s5: u32 = ((c >> 15) ^ (c >> 16) ^ (c >> 17) ^ (c >> 18) ^ (c >> 19) ^ (c >> 20) ^ (c
        >> 21) ^ (c >> 22) ^ (c >> 23) ^ (c >> 24) ^ (c >> 25) ^ (c >> 26) ^ (c >> 27) ^ (c >> 28)
        ^ (c >> 29) ^ (c >> 30)) & 1;
    let s: u32 = s1 | (s2 << 1) | (s3 << 2) | (s4 << 3) | (s5 << 4);
    let p: u32 = (c ^ (c >> 1) ^ (c >> 2) ^ (c >> 3) ^ (c >> 4) ^ (c >> 5) ^ (c >> 6) ^ (c >> 7)
        ^ (c >> 8) ^ (c >> 9) ^ (c >> 10) ^ (c >> 11) ^ (c >> 12) ^ (c >> 13) ^ (c >> 14) ^ (c
        >> 15) ^ (c >> 16) ^ (c >> 17) ^ (c >> 18) ^ (c >> 19) ^ (c >> 20) ^ (c >> 21) ^ (c >> 22)
        ^ (c >> 23) ^ (c >> 24) ^ (c >> 25) ^ (c >> 26) ^ (c >> 27) ^ (c >> 28) ^ (c >> 29) ^ (c
        >> 30) ^ (c >> 31)) & 1;
    proof {
        assert(s == word_syndrome(c));
        assert(word_syndrome(c) < 32) by (bit_vector);
    }
    let h: u32 = c & 0x7FFF_FFFF;
    let corrected: u32 = if s != 0 && p == 1 {
        h ^ (1u32 << (s - 1))
    } else {
        h
    };
    let status: HammingStatus = if s == 0 && p == 0 {
        HammingStatus::NoError
    } else if p == 1 {
        HammingStatus::CorrectedSingle
    } else {
        HammingStatus::Uncorrectable
    };
    let data: u32 = ((corrected >> 2) & 0x1) | ((corrected >> 3) & 0xE) | ((corrected >> 4) & 0x7F0)
        | ((corrected >> 5) & 0x3FF_F800);
    (data, status)
}

/// Decoding the code word of any 26 data bits gives the bits back and finds
/// no error.
pub proof fn lemma_code_word_round_trip(d: u32)
    requires
        d < 0x0400_0000,
    ensures
        word_data(hamming_code_word(d)) == d,
        word_status(hamming_code_word(d)) == HammingStatus::NoError,
{
    lemma_valid_code_word(d);
}

/// A fresh code word has syndrome zero and even overall parity, and carries
/// its data bits unchanged.
proof fn lemma_valid_code_word(d: u32)
    requires
        d < 0x0400_0000,
    ensures
        word_syndrome(hamming_code_word(d)) == 0,
        word_parity(hamming_code_word(d)) == 0,
        word_data(hamming_code_word(d)) == d,
        word_status(hamming_code_word(d)) == HammingStatus::NoError,
{
    let c = hamming_code_word(d);
    assert(word_syndrome(c) == 0 && word_parity(c) == 0 && extract_data_bits(c & 0x7FFF_FFFF)
        == d) by (bit_vector)
        requires
            d < 0x0400_0000,
            c == hamming_code_word(d),
    ;
}

/// The syndrome and the overall parity are both linear over bit flips.
proof fn lemma_check_bits_linear(x: u32, e: u32)
    ensures
        word_syndrome(x ^ e) == word_syndrome(x) ^ word_syndrome(e),
        word_parity(x ^ e) == word_parity(x) ^ word_parity(e),
{
    assert(word_syndrome(x ^ e) == word_syndrome(x) ^ word_syndrome(e) && word_parity(x ^ e)
        == word_parity(x) ^ word_parity(e)) by (bit_vector);
}

/// Checking a word with exactly one bit set: the syndrome names the flipped
/// position inside the Hamming field, and the overall parity is odd.
proof fn lemma_check_bits_single(k: u32)
    requires
        k < 32,
    ensures
        k < 31 ==> word_syndrome(1u32 << k) == ((k + 1) as u32),
        k == 31 ==> word_syndrome(1u32 << k) == 0,
        word_parity(1u32 << k) == 1,
{
    assert((k < 31 ==> word_syndrome(1u32 << k) == ((k + 1) as u32)) && (k == 31 ==> word_syndrome(
        1u32 << k,
    ) == 0) && word_parity(1u32 << k) == 1) by (bit_vector)
        requires
            k < 32,
    ;
}

/// Flipping any single bit of a code word, the overall parity bit included,
/// still decodes to the original 26 data bits, reported as one correction.
pub proof fn lemma_code_word_single_error(d: u32, k: u32)
    requires
        d < 0x0400_0000,
        k < 32,
    ensures
        word_data(hamming_code_word(d) ^ (1u32 << k)) == d,
        word_status(hamming_code_word(d) ^ (1u32 << k)) == HammingStatus::CorrectedSingle,
{
    let cw = hamming_code_word(d);
    let e = 1u32 << k;
    let c2 = cw ^ e;
    lemma_valid_code_word(d);
    lemma_check_bits_linear(cw, e);
    lemma_check_bits_single(k);
    assert((0u32 ^ word_syndrome(e)) == word_syndrome(e) && (0u32 ^ 1u32) == 1u32) by (bit_vector);
    if k < 31 {
        assert(word_syndrome(c2) == (k + 1) as u32);
        assert((k + 1) as u32 != 0 && ((k + 1) as u32) - 1 == k) by (bit_vector)
            requires
                k < 31,
        ;
        assert(((cw ^ e) & 0x7FFF_FFFF) ^ (1u32 << k) == cw & 0x7FFF_FFFF) by (bit_vector)
            requires
                e == 1u32 << k,
                k < 31,
        ;
        assert(corrected_code_word(c2) == cw & 0x7FFF_FFFF);
    } else {
        assert(word_syndrome(c2) == 0);
        assert((cw ^ e) & 0x7FFF_FFFF == cw & 0x7FFF_FFFF) by (bit_vector)
            requires
                e == 1u32 << k,
                k == 31,
        ;
        assert(corrected_code_word(c2) == cw & 0x7FFF_FFFF);
    }
    assert(corrected_code_word(cw) == cw & 0x7FFF_FFFF);
}

/// Flipping any two distinct bits of a code word is detected as an
/// uncorrectable error.
pub proof fn lemma_code_word_double_error(d: u32, k1: u32, k2: u32)
    requires
        d < 0x0400_0000,
        k1 < 32,
        k2 < 32,
        k1 != k2,
    ensures
        word_status(hamming_code_word(d) ^ (1u32 << k1) ^ (1u32 << k2))
            == HammingStatus::Uncorrectable,
{
    let cw = hamming_code_word(d);
    let e1 = 1u32 << k1;
    let e2 = 1u32 << k2;
    lemma_valid_code_word(d);
    lemma_check_bits_linear(cw, e1);
    lemma_check_bits_linear(cw ^ e1, e2);
    lemma_check_bits_single(k1);
    lemma_check_bits_single(k2);
    let s1 = word_syndrome(e1);
    let s2 = word_syndrome(e2);
    assert(word_syndrome(cw ^ e1 ^ e2) == (0u32 ^ s1) ^ s2);
    assert((0u32 ^ s1) ^ s2 == s1 ^ s2) by (bit_vector);
    assert(word_parity(cw ^ e1 ^ e2) == (0u32 ^ 1u32) ^ 1u32);
    assert((0u32 ^ 1u32) ^ 1u32 == 0u32) by (bit_vector);
    if k1 < 31 && k2 < 31 {
        assert(((k1 + 1) as u32) ^ ((k2 + 1) as u32) != 0) by (bit_vector)
            requires
                k1 < 31,
                k2 < 31,
                k1 != k2,
        ;
    } else if k1 == 31 {
        assert(0u32 ^ ((k2 + 1) as u32) != 0) by (bit_vector)
            requires
                k2 < 31,
        ;
    } else {
        assert(((k1 + 1) as u32) ^ 0u32 != 0) by (bit_vector)
            requires
                k1 < 31,
        ;
    }
}

/// The 26-bit field of the bit stream of `data` that feeds code word `t`.
pub open spec fn stream_word(data: Seq<u8>, t: int) -> u32 {
    bits_val(stream_bits(data), 26 * t, 26) as u32
}

/// The Hamming encoding of a whole byte stream: 16 output bytes for every 13
/// input bytes, each code word stored as 4 little-endian bytes.
pub open spec fn hamming_encoded(data: Seq<u8>) -> Seq<u8> {
    Seq::new(
        data.len() / 13 * 16,
        |i: int|
            {
                let w = hamming_code_word(stream_word(data, i / 4));
                ((w >> ((8 * (i % 4)) as u32)) & 0xFF) as u8
            },
    )
}

/// The little-endian 32-bit word stored at bytes `4t .. 4t+4`.
pub open spec fn le_word_at(data: Seq<u8>, t: int) -> u32 {
    (data[4 * t] as u32) | ((data[4 * t + 1] as u32) << 8) | ((data[4 * t + 2] as u32) << 16) | ((
    data[4 * t + 3] as u32) << 24)
}

/// The decoded data bits of a received stream, as one MSB-first bit stream:
/// 26 bits out of every 4-byte word.
pub open spec fn decoded_stream_bits(data: Seq<u8>) -> Seq<nat> {
    Seq::new(
        data.len() / 4 * 26,
        |m: int| (((word_data(le_word_at(data, m / 26)) >> ((25 - (m % 26)) as u32)) & 1) as nat),
    )
}

/// Every decoded stream bit is a single bit.
pub proof fn lemma_decoded_bits_in_range(data: Seq<u8>)
    ensures
        bits_in_range(decoded_stream_bits(data), 0, decoded_stream_bits(data).len()),
{
    let dbits = decoded_stream_bits(data);
    assert forall|m: int| 0 <= m < dbits.len() implies dbits[m] < 2 by {
        let dv = word_data(le_word_at(data, m / 26));
        let sh = (25 - (m % 26)) as u32;
        assert((dv >> sh) & 1 <= 1) by (bit_vector);
    }
}

/// The bytes recovered from a received stream: 13 bytes for every 16.
pub open spec fn hamming_decoded(data: Seq<u8>) -> Seq<u8> {
    Seq::new(data.len() / 16 * 13, |i: int| bits_val(decoded_stream_bits(data), 8 * i, 8) as u8)
}

/// How many of the first `n` received words decode with a corrected single
/// bit error.
pub open spec fn count_corrected(data: Seq<u8>, n: nat) -> nat
    decreases n,
{
    if n == 0 {
        0
    } else {
        count_corrected(data, (n - 1) as nat) + if word_status(le_word_at(data, n - 1))
            == HammingStatus::CorrectedSingle {
            1nat
        } else {
            0nat
        }
    }
}

/// How many of the first `n` received words decode with an uncorrectable
/// double bit error.
pub open spec fn count_uncorrected(data: Seq<u8>, n: nat) -> nat
    decreases n,
{
    if n == 0 {
        0
    } else {
        count_uncorrected(data, (n - 1) as nat) + if word_status(le_word_at(data, n - 1))
            == HammingStatus::Uncorrectable {
            1nat
        } else {
            0nat
        }
    }
}

/// The first `n` words of a noise-free stream all check clean, so both
/// error counters stay at zero.
proof fn lemma_no_error_counts(data: Seq<u8>, n: nat)
    requires
        forall|t: int|
            0 <= t < n ==> word_status(#[trigger] le_word_at(data, t)) == HammingStatus::NoError,
    ensures
        count_corrected(data, n) == 0,
        count_uncorrected(data, n) == 0,
    decreases n,
{
    if n > 0 {
        lemma_no_error_counts(data, (n - 1) as nat);
    }
}

/// Noise-free Hamming round trip: decoding an encoded stream yields the
/// original bytes, and both error counters stay at zero.
/// Decoding a noise-free encoded stream followed by any run of zero bytes
/// (a whole number of 16-byte chunks: zero words are valid code words)
/// yields the original bytes followed by zeros, with no errors counted.
pub proof fn lemma_hamming_decoded_with_zeros(data: Seq<u8>, tail: Seq<u8>)
    requires
        data.len() % 13 == 0,
        tail.len() % 16 == 0,
        forall|i: int| 0 <= i < tail.len() ==> tail[i] == 0,
    ensures
        (hamming_encoded(data) + tail).len() % 16 == 0,
        hamming_decoded(hamming_encoded(data) + tail).len() == data.len() + tail.len() / 16 * 13,
        hamming_decoded(hamming_encoded(data) + tail).take(data.len() as int) == data,
        forall|i: int|
            data.len() <= i < hamming_decoded(hamming_encoded(data) + tail).len()
                ==> hamming_decoded(hamming_encoded(data) + tail)[i] == 0,
        count_corrected(hamming_encoded(data) + tail, ((hamming_encoded(data) + tail).len() / 4) as nat)
            == 0,
        count_uncorrected(
            hamming_encoded(data) + tail,
            ((hamming_encoded(data) + tail).len() / 4) as nat,
        ) == 0,
{
    let n = data.len() as int;
    let q = n / 13;
    let enc = hamming_encoded(data);
    let e = enc + tail;
    let tl = tail.len() as int;
    let tq = tl / 16;
    let words1 = q * 4;
    let zw = tq * 4;
    let words = words1 + zw;
    lemma_fundamental_div_mod(n, 13);
    lemma_fundamental_div_mod(tl, 16);
    assert(enc.len() == 4 * words1 && 26 * words1 == 8 * n && e.len() == 4 * words && e.len() % 16
        == 0 && e.len() / 4 == words && e.len() / 16 * 13 == n + tq * 13 && 8 * (n + tq * 13) == 26
        * words && words1 <= words) by (nonlinear_arith)
        requires
            enc.len() == n / 13 * 16,
            q == n / 13,
            words1 == q * 4,
            13 * q == n,
            n >= 0,
            tq == tl / 16,
            tl == 16 * tq + tl % 16,
            tl % 16 == 0,
            tl >= 0,
            zw == tq * 4,
            words == words1 + zw,
            e.len() == enc.len() + tl,
    ;
    lemma_stream_bits_in_range(data);
    let sbits = stream_bits(data);
    assert forall|t: int| 0 <= t < words1 implies #[trigger] le_word_at(e, t)
        == hamming_code_word(stream_word(data, t)) by {
        let w = hamming_code_word(stream_word(data, t));
        assert((4 * t + 0) / 4 == t && (4 * t + 0) % 4 == 0 && (4 * t + 1) / 4 == t && (4 * t + 1)
            % 4 == 1 && (4 * t + 2) / 4 == t && (4 * t + 2) % 4 == 2 && (4 * t + 3) / 4 == t && (4
            * t + 3) % 4 == 3) by (nonlinear_arith)
            requires
                0 <= t,
        ;
        assert(4 * t + 3 < enc.len()) by (nonlinear_arith)
            requires
                t < words1,
                enc.len() == 4 * words1,
        ;
        assert(w >> 0 == w) by (bit_vector);
        let b0 = enc[4 * t];
        let b1 = enc[4 * t + 1];
        let b2 = enc[4 * t + 2];
        let b3 = enc[4 * t + 3];
        assert(e[4 * t] == b0 && e[4 * t + 1] == b1 && e[4 * t + 2] == b2 && e[4 * t + 3] == b3);
        assert(b0 == (w & 0xFF) as u8);
        assert(b1 == ((w >> 8) & 0xFF) as u8);
        assert(b2 == ((w >> 16) & 0xFF) as u8);
        assert(b3 == ((w >> 24) & 0xFF) as u8);
        assert((b0 as u32) | ((b1 as u32) << 8) | ((b2 as u32) << 16) | ((b3 as u32) << 24)
            == w) by (bit_vector)
            requires
                b0 == (w & 0xFF) as u8,
                b1 == ((w >> 8) & 0xFF) as u8,
                b2 == ((w >> 16) & 0xFF) as u8,
                b3 == ((w >> 24) & 0xFF) as u8,
    ;
    }
    assert forall|t: int| words1 <= t < words implies #[trigger] le_word_at(e, t) == 0u32 by {
        assert(4 * t + 3 < e.len() && 4 * t >= enc.len()) by (nonlinear_arith)
            requires
                t < words,
                words1 <= t,
                e.len() == 4 * words,
                enc.len() == 4 * words1,
        ;
        assert(e[4 * t] == tail[4 * t - enc.len()]);
        assert(e[4 * t + 1] == tail[4 * t + 1 - enc.len()]);
        assert(e[4 * t + 2] == tail[4 * t + 2 - enc.len()]);
        assert(e[4 * t + 3] == tail[4 * t + 3 - enc.len()]);
        assert((0u8 as u32) | ((0u8 as u32) << 8) | ((0u8 as u32) << 16) | ((0u8 as u32) << 24)
            == 0u32) by (bit_vector);
    }
    assert(hamming_code_word(0) == 0) by (bit_vector);
    lemma_valid_code_word(0);
    assert forall|t: int| 0 <= t < words implies word_data(#[trigger] le_word_at(e, t)) == (if t
        < words1 {
        stream_word(data, t)
    } else {
        0u32
    }) && word_status(le_word_at(e, t)) == HammingStatus::NoError by {
        if t < words1 {
            assert(26 * t + 26 <= 26 * words1) by (nonlinear_arith)
                requires
                    0 <= t < words1,
            ;
            lemma_bits_val_bound(sbits, 26 * t, 26);
            assert(pow2(26) == 0x0400_0000) by {
                lemma2_to64();
            }
            lemma_valid_code_word(stream_word(data, t));
        }
    }
    lemma_no_error_counts(e, words as nat);
    let dbits = decoded_stream_bits(e);
    assert(dbits.len() == 26 * words) by (nonlinear_arith)
        requires
            dbits.len() == e.len() / 4 * 26,
            e.len() / 4 == words,
    ;
    assert forall|m: int| 0 <= m < 26 * words implies #[trigger] dbits[m] == (if m < 8 * n {
        sbits[m]
    } else {
        0nat
    }) by {
        let t = m / 26;
        let o = m % 26;
        lemma_fundamental_div_mod(m, 26);
        if m < 8 * n {
            assert(0 <= t && t < words1) by (nonlinear_arith)
                requires
                    m == 26 * t + o,
                    0 <= o < 26,
                    0 <= m,
                    m < 26 * words1,
            ;
            assert(word_data(le_word_at(e, t)) == stream_word(data, t));
            lemma_bits_val_shifted_bit(sbits, 26 * t, 26, o);
        } else {
            assert(words1 <= t && t < words) by (nonlinear_arith)
                requires
                    m == 26 * t + o,
                    0 <= o < 26,
                    26 * words1 == 8 * n,
                    m >= 8 * n,
                    m < 26 * words,
            ;
            assert(word_data(le_word_at(e, t)) == 0u32);
            let sh = (25 - (m % 26)) as u32;
            assert((0u32 >> sh) & 1 == 0) by (bit_vector);
        }
    }
    let dec = hamming_decoded(e);
    assert(dec.len() == n + tq * 13);
    assert forall|i: int| 0 <= i < n implies #[trigger] dec[i] == data[i] by {
        assert forall|o: int| 0 <= o < 8 implies #[trigger] dbits[8 * i + o] == sbits[8 * i
            + o] by {
            assert(8 * i + o < 8 * n);
            assert(8 * n <= 26 * words);
        }
        lemma_bits_val_congr(dbits, 8 * i, sbits, 8 * i, 8);
        lemma_bits_val_byte(data, i);
    }
    assert(dec.take(n) =~= data);
    assert forall|i: int| n <= i < dec.len() implies #[trigger] dec[i] == 0u8 by {
        assert forall|o: int| 8 * i <= o < 8 * i + 8 implies dbits[o] == 0nat by {
            assert(o >= 8 * n);
            assert(o < 26 * words) by (nonlinear_arith)
                requires
                    o < 8 * i + 8,
                    i < n + tq * 13,
                    8 * (n + tq * 13) == 26 * words,
            ;
        }
        crate::bits::lemma_bits_val_zero(dbits, 8 * i, 8);
    }
}

/// Noise-free Hamming round trip: decoding an encoded stream yields the
/// original bytes, and both error counters stay at zero.
pub proof fn lemma_hamming_round_trip(data: Seq<u8>)
    requires
        data.len() % 13 == 0,
    ensures
        hamming_encoded(data).len() == data.len() / 13 * 16,
        hamming_encoded(data).len() % 16 == 0,
        hamming_decoded(hamming_encoded(data)) == data,
        count_corrected(hamming_encoded(data), (hamming_encoded(data).len() / 4) as nat) == 0,
        count_uncorrected(hamming_encoded(data), (hamming_encoded(data).len() / 4) as nat) == 0,
{
    let enc = hamming_encoded(data);
    lemma_hamming_decoded_with_zeros(data, Seq::empty());
    assert(enc + Seq::<u8>::empty() =~= enc);
    let dec = hamming_decoded(enc);
    assert(dec.len() == data.len());
    assert(dec.take(data.len() as int) =~= dec);
    assert(dec == data);
}

/// Splits data into 26-bit chunks and encodes each as a 32-bit code word
/// using `hamming_31_26_encode`.  The data must be a multiple of 13 bytes
/// (lcm(8, 26) / 8); this function does not pad.
pub fn encode_with_hamming_31_26(data: &Vec<u8>) -> (r: Result<Vec<u8>, VortexError>)
    requires
        data@.len() * 8 <= usize::MAX,
    ensures
        match r {
            Ok(v) => data@.len() % 13 == 0 && v@ == hamming_encoded(data@),
            Err(e) => data@.len() % 13 != 0 && e == VortexError::HammingEncodeLength,
        },
{
    if data.len() % 13 != 0 {
        return Err(VortexError::HammingEncodeLength);
    }
    let ghost enc = hamming_encoded(data@);
    let words: usize = data.len() / 13 * 4;
    proof {
        lemma_fundamental_div_mod(data@.len() as int, 13);
        assert(26 * words == 8 * data@.len()) by (nonlinear_arith)
            requires
                words == data@.len() / 13 * 4,
                13 * (data@.len() / 13) == data@.len(),
        ;
        assert(enc.len() == 4 * words) by (nonlinear_arith)
            requires
                enc.len() == data@.len() / 13 * 16,
                words == data@.len() / 13 * 4,
        ;
    }
    let mut out: Vec<u8> = Vec::new();
    let mut t: usize = 0;
    while t < words
        invariant
            t <= words,
            26 * words == 8 * data@.len(),
            data@.len() * 8 <= usize::MAX,
            enc == hamming_encoded(data@),
            enc.len() == 4 * words,
            out@.len() == 4 * t,
            forall|i: int| 0 <= i < 4 * t ==> out@[i] == enc[i],
        decreases words - t,
    {
        proof {
            assert(26 * t + 26 <= 26 * words) by (nonlinear_arith)
                requires
                    t < words,
            ;
        }
        let d: u32 = read_bits(data, 26 * t, 26);
        let w: u32 = hamming_31_26_encode(d);
        proof {
            lemma_stream_bits_in_range(data@);
            lemma_bits_val_bound(stream_bits(data@), 26 * (t as int), 26);
            assert(pow2(26) == 0x0400_0000) by {
                lemma2_to64();
            }
            assert(d == stream_word(data@, t as int));
            let ti = t as int;
            assert((4 * ti + 0) / 4 == ti && (4 * ti + 0) % 4 == 0 && (4 * ti + 1) / 4 == ti && (4
                * ti + 1) % 4 == 1 && (4 * ti + 2) / 4 == ti && (4 * ti + 2) % 4 == 2 && (4 * ti
                + 3) / 4 == ti && (4 * ti + 3) % 4 == 3) by (nonlinear_arith)
                requires
                    0 <= ti,
            ;
            assert(w >> 0 == w) by (bit_vector);
            assert(enc[4 * t as int] == (w & 0xFF) as u8);
            assert(enc[4 * t as int + 1] == ((w >> 8) & 0xFF) as u8);
            assert(enc[4 * t as int + 2] == ((w >> 16) & 0xFF) as u8);
            assert(enc[4 * t as int + 3] == ((w >> 24) & 0xFF) as u8);
        }
        out.push((w & 0xFF) as u8);
        out.push(((w >> 8) & 0xFF) as u8);
        out.push(((w >> 16) & 0xFF) as u8);
        out.push(((w >> 24) & 0xFF) as u8);
        t = t + 1;
    }
    proof {
        assert(out@ =~= enc);
    }
    Ok(out)
}

/// Decodes a stream produced by `encode_with_hamming_31_26`, correcting
/// single bit errors and counting what was found.  The data must be a
/// multiple of 16 bytes.
pub fn decode_with_hamming_31_26(data: &Vec<u8>) -> (r: Result<
    (Vec<u8>, HammingReport),
    VortexError,
>)
    requires
        data@.len() * 8 <= usize::MAX,
        data@.len() < 0x1_0000_0000,
    ensures
        match r {
            Ok(p) => data@.len() % 16 == 0 && p.0@ == hamming_decoded(data@)
                && p.1.corrected_errors == count_corrected(data@, (data@.len() / 4) as nat)
                && p.1.uncorrected_errors == count_uncorrected(data@, (data@.len() / 4) as nat),
            Err(e) => data@.len() % 16 != 0 && e == VortexError::HammingDecodeLength,
        },
{
    if data.len() % 16 != 0 {
        return Err(VortexError::HammingDecodeLength);
    }
    let words: usize = data.len() / 4;
    let mut dvals: Vec<u32> = Vec::new();
    let mut corrected: u32 = 0;
    let mut uncorrected: u32 = 0;
    let mut t: usize = 0;
    while t < words
        invariant
            t <= words,
            words == data@.len() / 4,
            data@.len() % 16 == 0,
            data@.len() < 0x1_0000_0000,
            dvals@.len() == t,
            forall|j: int| 0 <= j < t ==> #[trigger] dvals@[j] == word_data(le_word_at(data@, j)),
            corrected as nat == count_corrected(data@, t as nat),
            uncorrected as nat == count_uncorrected(data@, t as nat),
            corrected as nat <= t,
            uncorrected as nat <= t,
        decreases words - t,
    {
        proof {
            assert(4 * t + 4 <= 4 * words) by (nonlinear_arith)
                requires
                    t < words,
            ;
            assert(4 * words <= data@.len()) by (nonlinear_arith)
                requires
                    words == data@.len() / 4,
            ;
        }
        let b0: u32 = data[4 * t] as u32;
        let b1: u32 = data[4 * t + 1] as u32;
        let b2: u32 = data[4 * t + 2] as u32;
        let b3: u32 = data[4 * t + 3] as u32;
        let w: u32 = b0 | (b1 << 8) | (b2 << 16) | (b3 << 24);
        proof {
            assert(w == le_word_at(data@, t as int));
        }
        let decoded = hamming_31_26_decode(w);
        dvals.push(decoded.0);
        match decoded.1 {
            HammingStatus::CorrectedSingle => {
                corrected = corrected + 1;
            },
            HammingStatus::Uncorrectable => {
                uncorrected = uncorrected + 1;
            },
            HammingStatus::NoError => {},
        }
        t = t + 1;
    }
    let ghost dbits = decoded_stream_bits(data@);
    proof {
        assert(dbits.len() == words * 26) by (nonlinear_arith)
            requires
                dbits.len() == data@.len() / 4 * 26,
                words == data@.len() / 4,
        ;
    }
    let out_len: usize = data.len() / 16 * 13;
    proof {
        lemma_fundamental_div_mod(data@.len() as int, 16);
        assert(8 * out_len == 26 * words && out_len <= data@.len()) by (nonlinear_arith)
            requires
                out_len == data@.len() / 16 * 13,
                words == data@.len() / 4,
                16 * (data@.len() / 16) == data@.len(),
                data@.len() % 16 == 0,
        ;
    }
    let mut out: Vec<u8> = Vec::new();
    let mut i: usize = 0;
    while i < out_len
        invariant
            i <= out_len,
            8 * out_len == 26 * words,
            out_len == data@.len() / 16 * 13,
            out_len <= data@.len(),
            data@.len() * 8 <= usize::MAX,
            dbits == decoded_stream_bits(data@),
            dbits.len() == words * 26,
            dvals@.len() == words,
            forall|j: int| 0 <= j < words ==> #[trigger] dvals@[j] == word_data(le_word_at(data@, j)),
            out@.len() == i,
            forall|j: int| 0 <= j < i ==> out@[j] == hamming_decoded(data@)[j],
        decreases out_len - i,
    {
        let mut byte: u32 = 0;
        let mut k: usize = 0;
        while k < 8
            invariant
                k <= 8,
                i < out_len,
                8 * out_len == 26 * words,
                out_len <= data@.len(),
                data@.len() * 8 <= usize::MAX,
                dbits == decoded_stream_bits(data@),
                dbits.len() == words * 26,
                dvals@.len() == words,
                forall|j: int| 0 <= j < words ==> #[trigger] dvals@[j] == word_data(le_word_at(data@, j)),
                byte as nat == bits_val(dbits, 8 * i as int, k as nat),
                byte < 256,
            decreases 8 - k,
        {
            let m: usize = 8 * i + k;
            proof {
                assert(m < 26 * words) by (nonlinear_arith)
                    requires
                        m == 8 * i + k,
                        k < 8,
                        i < out_len,
                        8 * out_len == 26 * words,
                ;
                assert(m / 26 < words) by (nonlinear_arith)
                    requires
                        m < 26 * words,
                        0 <= m,
                ;
            }
            let t2: usize = m / 26;
            let o: usize = m % 26;
            let bit: u32 = (dvals[t2] >> ((25 - o) as u32)) & 1;
            proof {
                let dv = word_data(le_word_at(data@, t2 as int));
                assert((dv >> ((25 - (m as int % 26)) as u32)) & 1 <= 1) by (bit_vector);
                assert(dbits[m as int] == ((dv >> ((25 - (m as int % 26)) as u32)) & 1) as nat);
                assert(bit as nat == dbits[m as int]);
            }
            byte = byte * 2 + bit;
            k = k + 1;
            proof {
                lemma_decoded_bits_in_range(data@);
                lemma_bits_val_bound(dbits, 8 * i as int, k as nat);
                if (k as nat) < 8 {
                    lemma_pow2_strictly_increases(k as nat, 8);
                }
                assert(pow2(8) == 256) by {
                    lemma2_to64();
                }
            }
        }
        proof {
            assert(hamming_decoded(data@)[i as int] == bits_val(dbits, 8 * i as int, 8) as u8);
            assert(byte as u8 as nat == byte as nat);
        }
        out.push(byte as u8);
        i = i + 1;
    }
    proof {
        assert(out@ =~= hamming_decoded(data@));
    }
    Ok(
        (
            out,
            HammingReport { corrected_errors: corrected, uncorrected_errors: uncorrected },
        ),
    )
}

} // verus!
