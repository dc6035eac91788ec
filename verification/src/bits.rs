//! MSB-first bit-stream model shared by the pixel codec and the Hamming codec.
//!
//! Payload bytes are viewed as one stream of bits, most significant bit of
//! each byte first.  `bits_val` reads a fixed-width unsigned field out of such
//! a stream; the lemmas here relate field values back to individual bits.

use vstd::arithmetic::div_mod::lemma_div_denominator;
use vstd::arithmetic::power2::{lemma2_to64, lemma_pow2_strictly_increases, lemma_pow2_unfold, pow2};
use vstd::bits::{lemma_u32_low_bits_mask_is_mod, lemma_u32_shr_is_div, lemma_low_bits_mask_values};
use vstd::prelude::*;

verus! {

/// Bit `k` of the byte `b`, counting from the most significant bit:
/// `byte_bit(b, 0)` is the top bit and `byte_bit(b, 7)` the lowest.
pub open spec fn byte_bit(b: u8, k: int) -> nat
    recommends
        0 <= k < 8,
{
    (((b as u32) >> ((7 - k) as u32)) & 1) as nat
}

/// The bytes of `data` as one MSB-first stream of bits.
pub open spec fn stream_bits(data: Seq<u8>) -> Seq<nat> {
    Seq::new(data.len() * 8, |i: int| byte_bit(data[i / 8], i % 8))
}

/// The unsigned value of `count` bits of `bits`, read MSB-first from `start`.
pub open spec fn bits_val(bits: Seq<nat>, start: int, count: nat) -> nat
    decreases count,
{
    if count == 0 {
        0
    } else {
        bits_val(bits, start, (count - 1) as nat) * 2 + bits[start + count - 1]
    }
}

/// Every entry of `bits` in `[start, start + count)` is a single bit.
pub open spec fn bits_in_range(bits: Seq<nat>, start: int, count: nat) -> bool {
    forall|o: int| start <= o < start + count ==> bits[o] < 2
}

/// A byte contributes only single bits to the stream.
pub proof fn lemma_byte_bit_le1(b: u8, k: int)
    ensures
        byte_bit(b, k) <= 1,
{
    let sh = (7 - k) as u32;
    assert(((b as u32) >> sh) & 1 <= 1) by (bit_vector);
}

/// The whole stream of a byte sequence consists of single bits.
pub proof fn lemma_stream_bits_in_range(data: Seq<u8>)
    ensures
        bits_in_range(stream_bits(data), 0, data.len() * 8),
        stream_bits(data).len() == data.len() * 8,
{
    assert forall|o: int| 0 <= o < data.len() * 8 implies stream_bits(data)[o] < 2 by {
        lemma_byte_bit_le1(data[o / 8], o % 8);
    }
}

/// A field of single bits is bounded by the corresponding power of two.
pub proof fn lemma_bits_val_bound(bits: Seq<nat>, start: int, count: nat)
    requires
        bits_in_range(bits, start, count),
    ensures
        bits_val(bits, start, count) < pow2(count),
    decreases count,
{
    if count == 0 {
        assert(pow2(0) == 1) by {
            lemma2_to64();
        }
    } else {
        lemma_bits_val_bound(bits, start, (count - 1) as nat);
        lemma_pow2_unfold(count);
        assert(bits[start + count - 1] < 2);
    }
}

/// A window of zero bits reads as the value zero.
pub proof fn lemma_bits_val_zero(bits: Seq<nat>, start: int, count: nat)
    requires
        forall|o: int| start <= o < start + count ==> bits[o] == 0,
    ensures
        bits_val(bits, start, count) == 0,
    decreases count,
{
    if count > 0 {
        lemma_bits_val_zero(bits, start, (count - 1) as nat);
        assert(bits[start + count - 1] == 0);
    }
}

/// Two streams that agree bit for bit over a window give the same field value.
pub proof fn lemma_bits_val_congr(b1: Seq<nat>, s1: int, b2: Seq<nat>, s2: int, count: nat)
    requires
        forall|o: int| 0 <= o < count ==> #[trigger] b1[s1 + o] == b2[s2 + o],
    ensures
        bits_val(b1, s1, count) == bits_val(b2, s2, count),
    decreases count,
{
    if count > 0 {
        lemma_bits_val_congr(b1, s1, b2, s2, (count - 1) as nat);
        assert(b1[s1 + (count - 1)] == b2[s2 + (count - 1)]);
    }
}

/// Reading two adjacent fields is reading one wide field.
pub proof fn lemma_bits_val_split(bits: Seq<nat>, start: int, c1: nat, c2: nat)
    ensures
        bits_val(bits, start, (c1 + c2) as nat) == bits_val(bits, start, c1) * pow2(c2) + bits_val(
            bits,
            start + c1,
            c2,
        ),
    decreases c2,
{
    if c2 == 0 {
        assert(pow2(0) == 1) by {
            lemma2_to64();
        }
    } else {
        lemma_bits_val_split(bits, start, c1, (c2 - 1) as nat);
        lemma_pow2_unfold(c2);
        let a = bits_val(bits, start, c1);
        let p = pow2((c2 - 1) as nat);
        assert(a * (2 * p) == (a * p) * 2) by (nonlinear_arith);
    }
}

/// Bit `o` (MSB-first) of a field read from `start` is stream bit `start + o`.
pub proof fn lemma_bits_val_bit(bits: Seq<nat>, start: int, count: nat, o: int)
    requires
        bits_in_range(bits, start, count),
        0 <= o < count,
    ensures
        bits_val(bits, start, count) / pow2((count - 1 - o) as nat) % 2 == bits[start + o],
    decreases count,
{
    let v = bits_val(bits, start, count);
    let prev = bits_val(bits, start, (count - 1) as nat);
    let bit = bits[start + count - 1];
    assert(bit < 2);
    assert(v == prev * 2 + bit);
    if o == count - 1 {
        assert(pow2(0) == 1) by {
            lemma2_to64();
        }
        assert((prev * 2 + bit) % 2 == bit) by (nonlinear_arith)
            requires
                bit < 2,
        ;
        assert(v / 1 == v) by (nonlinear_arith);
        assert(v / pow2((count - 1 - o) as nat) % 2 == bits[start + o]);
    } else {
        let k = (count - 1 - o) as nat;
        lemma_pow2_unfold(k);
        assert((prev * 2 + bit) / 2 == prev) by (nonlinear_arith)
            requires
                bit < 2,
        ;
        assert(pow2((k - 1) as nat) > 0) by {
            vstd::arithmetic::power2::lemma_pow2_pos((k - 1) as nat);
        }
        lemma_div_denominator(v as int, 2, pow2((k - 1) as nat) as int);
        assert(v / pow2(k) == prev / pow2((k - 1) as nat));
        lemma_bits_val_bit(bits, start, (count - 1) as nat, o);
        assert(prev / pow2((k - 1) as nat) % 2 == bits[start + o]);
        assert(v / pow2((count - 1 - o) as nat) % 2 == bits[start + o]);
    }
}

/// The same fact with the division written as a shift on a 32-bit value.
pub proof fn lemma_bits_val_shifted_bit(bits: Seq<nat>, start: int, count: nat, o: int)
    requires
        bits_in_range(bits, start, count),
        0 <= o < count,
        count <= 32,
    ensures
        ((bits_val(bits, start, count) as u32) >> ((count - 1 - o) as u32)) & 1 == bits[start + o],
{
    let v = bits_val(bits, start, count);
    lemma_bits_val_bound(bits, start, count);
    if count < 32 {
        lemma_pow2_strictly_increases(count, 32);
    }
    assert(pow2(32) == 0x1_0000_0000) by {
        lemma2_to64();
    }
    let v32 = v as u32;
    let k = (count - 1 - o) as u32;
    lemma_u32_shr_is_div(v32, k);
    lemma_u32_low_bits_mask_is_mod(v32 >> k, 1);
    lemma_low_bits_mask_values();
    assert(pow2(1) == 2) by {
        lemma2_to64();
    }
    lemma_bits_val_bit(bits, start, count, o);
}

/// Eight stream bits starting at a byte boundary are exactly that byte.
pub proof fn lemma_bits_val_byte(data: Seq<u8>, i: int)
    requires
        0 <= i < data.len(),
    ensures
        bits_val(stream_bits(data), 8 * i, 8) == data[i],
{
    let s = stream_bits(data);
    let b = data[i];
    let b2 = b as u32;
    assert forall|k: int| 0 <= k < 8 implies #[trigger] s[8 * i + k] == byte_bit(b, k) by {
        assert((8 * i + k) / 8 == i && (8 * i + k) % 8 == k) by (nonlinear_arith)
            requires
                0 <= k < 8,
                0 <= i,
        ;
    }
    assert(s[8 * i + 0] == byte_bit(b, 0));
    assert(bits_val(s, 8 * i, 0) == 0);
    let t0 = (b2 >> 7) & 1;
    let t1 = (b2 >> 6) & 1;
    let t2 = (b2 >> 5) & 1;
    let t3 = (b2 >> 4) & 1;
    let t4 = (b2 >> 3) & 1;
    let t5 = (b2 >> 2) & 1;
    let t6 = (b2 >> 1) & 1;
    let t7 = b2 & 1;
    assert(t0 * 128 + t1 * 64 + t2 * 32 + t3 * 16 + t4 * 8 + t5 * 4 + t6 * 2 + t7
        == b2) by (bit_vector)
        requires
            b2 < 256,
            t0 == (b2 >> 7) & 1,
            t1 == (b2 >> 6) & 1,
            t2 == (b2 >> 5) & 1,
            t3 == (b2 >> 4) & 1,
            t4 == (b2 >> 3) & 1,
            t5 == (b2 >> 2) & 1,
            t6 == (b2 >> 1) & 1,
            t7 == b2 & 1,
    ;
    assert(byte_bit(b, 7) == (b2 & 1) as nat) by {
        assert((b2 >> 0) & 1 == b2 & 1) by (bit_vector);
    }
    assert(bits_val(s, 8 * i, 1) == t0 as nat);
    assert(bits_val(s, 8 * i, 2) == t0 * 2 + t1);
    assert(bits_val(s, 8 * i, 3) == t0 * 4 + t1 * 2 + t2);
    assert(bits_val(s, 8 * i, 4) == t0 * 8 + t1 * 4 + t2 * 2 + t3);
    assert(bits_val(s, 8 * i, 5) == t0 * 16 + t1 * 8 + t2 * 4 + t3 * 2 + t4);
    assert(bits_val(s, 8 * i, 6) == t0 * 32 + t1 * 16 + t2 * 8 + t3 * 4 + t4 * 2 + t5);
    assert(bits_val(s, 8 * i, 7) == t0 * 64 + t1 * 32 + t2 * 16 + t3 * 8 + t4 * 4 + t5 * 2 + t6);
    assert(bits_val(s, 8 * i, 8) == t0 * 128 + t1 * 64 + t2 * 32 + t3 * 16 + t4 * 8 + t5 * 4 + t6
        * 2 + t7);
}

/// Read stream bit `i` of `data` as a 32-bit value.
pub fn stream_bit_read(data: &Vec<u8>, i: usize) -> (r: u32)
    requires
        data@.len() * 8 <= usize::MAX,
        i < data@.len() * 8,
    ensures
        r as nat == stream_bits(data@)[i as int],
        r <= 1,
{
    let byte = data[i / 8];
    let sh = (7 - (i % 8)) as u32;
    proof {
        assert(((byte as u32) >> sh) & 1 <= 1) by (bit_vector);
    }
    ((byte as u32) >> sh) & 1
}

/// Read the `count`-bit field of the stream of `data` that starts at `start`.
pub fn read_bits(data: &Vec<u8>, start: usize, count: usize) -> (r: u32)
    requires
        data@.len() * 8 <= usize::MAX,
        count <= 32,
        start + count <= data@.len() * 8,
    ensures
        r as nat == bits_val(stream_bits(data@), start as int, count as nat),
{
    let ghost s = stream_bits(data@);
    let mut acc: u32 = 0;
    let mut k: usize = 0;
    proof {
        lemma_stream_bits_in_range(data@);
    }
    while k < count
        invariant
            k <= count,
            count <= 32,
            start + count <= data@.len() * 8,
            data@.len() * 8 <= usize::MAX,
            s == stream_bits(data@),
            bits_in_range(s, start as int, count as nat),
            acc as nat == bits_val(s, start as int, k as nat),
        decreases count - k,
    {
        proof {
            lemma_bits_val_bound(s, start as int, k as nat);
            lemma_pow2_unfold((k + 1) as nat);
            if k + 1 < 32 {
                lemma_pow2_strictly_increases((k + 1) as nat, 32);
            }
            assert(pow2(32) == 0x1_0000_0000) by {
                lemma2_to64();
            }
        }
        let bit = stream_bit_read(data, start + k);
        acc = acc * 2 + bit;
        k = k + 1;
    }
    acc
}

} // verus!
