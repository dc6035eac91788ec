//! Header codec: an 8-byte magic tag, the payload length and its SHA-256
//! hash, written three times over and recovered by bitwise majority vote.

use crate::converter::Converter;
use crate::errors::VortexError;
use sha2::Digest;
use vstd::prelude::*;

verus! {

/// Length in bytes of one header copy.
pub const HEADER_LEN: usize = 48;

/// The fixed 8-byte magic and version tag at the front of a header.
pub open spec fn magic_seq() -> Seq<u8> {
    seq![68u8, 65u8, 67u8, 79u8, 0u8, 255u8, 0u8, 1u8]
}

/// The SHA-256 digest of a byte sequence, as sha2 computes it.
pub uninterp spec fn sha256_of(data: Seq<u8>) -> Seq<u8>;

/// The digest pinned to its 32-byte length, so that specifications can rely
/// on the header layout without calling the hash function.
pub open spec fn sha256_digest(data: Seq<u8>) -> Seq<u8> {
    Seq::new(32, |i: int| sha256_of(data)[i])
}

/// Relies on sha2's `Sha256` through the `Digest::digest` convenience
/// method: the 32-byte SHA-256 digest of the input, a function of the input
/// bytes alone.
#[verifier::external_body]
pub(crate) fn sha256(data: &Vec<u8>) -> (r: Vec<u8>)
    ensures
        r@ == sha256_of(data@),
        r@.len() == 32,
{
    sha2::Sha256::digest(data).to_vec()
}

/// The eight little-endian bytes of a 64-bit length.
pub open spec fn le8(n: u64) -> Seq<u8> {
    seq![
        (n & 0xFF) as u8,
        ((n >> 8) & 0xFF) as u8,
        ((n >> 16) & 0xFF) as u8,
        ((n >> 24) & 0xFF) as u8,
        ((n >> 32) & 0xFF) as u8,
        ((n >> 40) & 0xFF) as u8,
        ((n >> 48) & 0xFF) as u8,
        ((n >> 56) & 0xFF) as u8,
    ]
}

/// The 64-bit value stored in eight little-endian bytes.
pub open spec fn le8_val(b: Seq<u8>) -> u64
    recommends
        b.len() == 8,
{
    (b[0] as u64) | ((b[1] as u64) << 8) | ((b[2] as u64) << 16) | ((b[3] as u64) << 24) | ((
    b[4] as u64) << 32) | ((b[5] as u64) << 40) | ((b[6] as u64) << 48) | ((b[7] as u64) << 56)
}

/// Reading back the little-endian bytes of a length gives the length.
pub proof fn lemma_le8_round_trip(n: u64)
    ensures
        le8_val(le8(n)) == n,
{
    let b = le8(n);
    let b0 = b[0];
    let b1 = b[1];
    let b2 = b[2];
    let b3 = b[3];
    let b4 = b[4];
    let b5 = b[5];
    let b6 = b[6];
    let b7 = b[7];
    assert((b0 as u64) | ((b1 as u64) << 8) | ((b2 as u64) << 16) | ((b3 as u64) << 24) | ((
    b4 as u64) << 32) | ((b5 as u64) << 40) | ((b6 as u64) << 48) | ((b7 as u64) << 56)
        == n) by (bit_vector)
        requires
            b0 == (n & 0xFF) as u8,
            b1 == ((n >> 8) & 0xFF) as u8,
            b2 == ((n >> 16) & 0xFF) as u8,
            b3 == ((n >> 24) & 0xFF) as u8,
            b4 == ((n >> 32) & 0xFF) as u8,
            b5 == ((n >> 40) & 0xFF) as u8,
            b6 == ((n >> 48) & 0xFF) as u8,
            b7 == ((n >> 56) & 0xFF) as u8,
    ;
}

/// One header copy for a payload: magic, length, hash.
pub open spec fn header_spec(payload: Seq<u8>) -> Seq<u8>
    recommends
        payload.len() <= u64::MAX,
{
    magic_seq() + le8(payload.len() as u64) + sha256_digest(payload)
}

/// The triplicated 144-byte header.
pub open spec fn header_triple_spec(payload: Seq<u8>) -> Seq<u8>
    recommends
        payload.len() <= u64::MAX,
{
    header_spec(payload) + header_spec(payload) + header_spec(payload)
}

/// Majority vote of three bytes, bit by bit.
pub open spec fn maj_byte(a: u8, b: u8, c: u8) -> u8 {
    (a & b) | (b & c) | (a & c)
}

/// The single header recovered from a 144-byte triple by majority vote.
pub open spec fn majority_header(h: Seq<u8>) -> Seq<u8>
    recommends
        h.len() == 144,
{
    Seq::new(48, |i: int| maj_byte(h[i], h[48 + i], h[96 + i]))
}

/// Data read from a decoded video's header.
#[derive(Debug, PartialEq)]
pub struct HeaderData {
    /// Identifies the converter version; also the magic tag that marks the
    /// first data frame.
    pub version_code: Vec<u8>,
    /// Number of bytes that were encoded into the video.
    pub data_len: usize,
    /// SHA-256 hash over the data.
    pub sha256_hash: Vec<u8>,
}

impl Converter {
    /// Generates the redundant header for data frames: bytes 0-7 the magic,
    /// 8-15 the payload length (little-endian), 16-47 the payload's SHA-256;
    /// the whole header triplicated for redundancy.
    ///
    /// # Arguments
    /// * `data` - The data to generate a header for.
    pub fn data_block_header(data: &Vec<u8>) -> (r: Vec<u8>)
        ensures
            r@ == header_triple_spec(data@),
            r@.len() == 144,
    {
        let mut header: Vec<u8> = Vec::new();
        header.push(68);
        header.push(65);
        header.push(67);
        header.push(79);
        header.push(0);
        header.push(255);
        header.push(0);
        header.push(1);
        let n: u64 = data.len() as u64;
        header.push((n & 0xFF) as u8);
        header.push(((n >> 8) & 0xFF) as u8);
        header.push(((n >> 16) & 0xFF) as u8);
        header.push(((n >> 24) & 0xFF) as u8);
        header.push(((n >> 32) & 0xFF) as u8);
        header.push(((n >> 40) & 0xFF) as u8);
        header.push(((n >> 48) & 0xFF) as u8);
        header.push(((n >> 56) & 0xFF) as u8);
        let mut hash: Vec<u8> = sha256(data);
        proof {
            assert(hash@ =~= sha256_digest(data@));
        }
        header.append(&mut hash);
        proof {
            assert(header@ =~= header_spec(data@));
        }
        let mut out: Vec<u8> = Vec::new();
        let mut rep: usize = 0;
        while rep < 3
            invariant
                rep <= 3,
                header@ == header_spec(data@),
                header@.len() == 48,
                out@.len() == 48 * rep,
                forall|idx: int| 0 <= idx < 48 * rep ==> #[trigger] out@[idx] == header@[idx % 48],
            decreases 3 - rep,
        {
            let mut i: usize = 0;
            while i < 48
                invariant
                    i <= 48,
                    rep < 3,
                    header@.len() == 48,
                    out@.len() == 48 * rep + i,
                    forall|idx: int|
                        0 <= idx < 48 * rep + i ==> #[trigger] out@[idx] == header@[idx % 48],
                decreases 48 - i,
            {
                proof {
                    assert((48 * rep + i) % 48 == i as int) by (nonlinear_arith)
                        requires
                            0 <= i < 48,
                            0 <= rep,
                    ;
                }
                out.push(header[i]);
                i = i + 1;
            }
            rep = rep + 1;
        }
        proof {
            let h = header_spec(data@);
            let triple = header_triple_spec(data@);
            assert forall|idx: int| 0 <= idx < 144 implies triple[idx] == h[idx % 48] by {
                if idx < 48 {
                    assert(idx % 48 == idx);
                } else if idx < 96 {
                    assert(idx % 48 == idx - 48);
                } else {
                    assert(idx % 48 == idx - 96);
                }
            }
            assert(out@ =~= triple);
        }
        out
    }

    /// Takes a triple-redundant header generated by `data_block_header`,
    /// reduces it to a single header by bitwise majority vote of the three
    /// copies, and decodes the fields.  Fails only when the recovered length
    /// does not fit a pointer-sized integer.
    ///
    /// # Arguments
    /// * `header` - Triple-redundant header bytes read from the stream.
    pub fn read_data_header(header: &Vec<u8>) -> (r: Result<HeaderData, VortexError>)
        requires
            header@.len() == 144,
        ensures
            ({
                let maj = majority_header(header@);
                match r {
                    Ok(hd) => {
                        &&& le8_val(maj.subrange(8, 16)) <= usize::MAX
                        &&& hd.version_code@ == maj.subrange(0, 8)
                        &&& hd.data_len == le8_val(maj.subrange(8, 16))
                        &&& hd.sha256_hash@ == maj.subrange(16, 48)
                    },
                    Err(e) => {
                        &&& le8_val(maj.subrange(8, 16)) > usize::MAX
                        &&& e == VortexError::HeaderLengthOverflow
                    },
                }
            }),
    {
        let ghost maj_spec = majority_header(header@);
        let mut maj: Vec<u8> = Vec::new();
        let mut i: usize = 0;
        while i < 48
            invariant
                i <= 48,
                header@.len() == 144,
                maj_spec == majority_header(header@),
                maj@.len() == i,
                forall|idx: int| 0 <= idx < i ==> #[trigger] maj@[idx] == maj_spec[idx],
            decreases 48 - i,
        {
            let a: u8 = header[i];
            let b: u8 = header[48 + i];
            let c: u8 = header[96 + i];
            maj.push((a & b) | (b & c) | (a & c));
            i = i + 1;
        }
        proof {
            assert(maj@ =~= maj_spec);
        }
        let mut version_code: Vec<u8> = Vec::new();
        let mut j: usize = 0;
        while j < 8
            invariant
                j <= 8,
                maj@ == maj_spec,
                maj_spec.len() == 48,
                version_code@.len() == j,
                forall|idx: int| 0 <= idx < j ==> #[trigger] version_code@[idx] == maj_spec[idx],
            decreases 8 - j,
        {
            version_code.push(maj[j]);
            j = j + 1;
        }
        let n: u64 = (maj[8] as u64) | ((maj[9] as u64) << 8) | ((maj[10] as u64) << 16) | ((
        maj[11] as u64) << 24) | ((maj[12] as u64) << 32) | ((maj[13] as u64) << 40) | ((
        maj[14] as u64) << 48) | ((maj[15] as u64) << 56);
        proof {
            let lb = maj_spec.subrange(8, 16);
            assert(lb[0] == maj_spec[8] && lb[1] == maj_spec[9] && lb[2] == maj_spec[10] && lb[3]
                == maj_spec[11] && lb[4] == maj_spec[12] && lb[5] == maj_spec[13] && lb[6]
                == maj_spec[14] && lb[7] == maj_spec[15]);
            assert(n == le8_val(lb));
        }
        if n > (usize::MAX as u64) {
            return Err(VortexError::HeaderLengthOverflow);
        }
        let data_len: usize = n as usize;
        let mut sha256_hash: Vec<u8> = Vec::new();
        let mut k: usize = 16;
        while k < 48
            invariant
                16 <= k <= 48,
                maj@ == maj_spec,
                maj_spec.len() == 48,
                sha256_hash@.len() == k - 16,
                forall|idx: int|
                    0 <= idx < k - 16 ==> #[trigger] sha256_hash@[idx] == maj_spec[idx + 16],
            decreases 48 - k,
        {
            sha256_hash.push(maj[k]);
            k = k + 1;
        }
        proof {
            assert(version_code@ =~= maj_spec.subrange(0, 8));
            assert(sha256_hash@ =~= maj_spec.subrange(16, 48));
        }
        Ok(HeaderData { version_code, data_len, sha256_hash })
    }
}

/// Majority vote of three bytes where two agree returns the agreeing value,
/// whatever the third byte holds.
proof fn lemma_maj_two_equal(a: u8, x: u8)
    ensures
        maj_byte(x, a, a) == a,
        maj_byte(a, x, a) == a,
        maj_byte(a, a, x) == a,
{
    assert(((x & a) | (a & a) | (x & a)) == a && ((a & x) | (x & a) | (a & a)) == a && ((a & a) | (a
        & x) | (a & x)) == a) by (bit_vector);
}

/// An untouched triple recovers the original header.
pub proof fn lemma_majority_recovers(h: Seq<u8>)
    requires
        h.len() == 48,
    ensures
        majority_header(h + h + h) == h,
{
    let triple = h + h + h;
    assert forall|i: int| 0 <= i < 48 implies majority_header(triple)[i] == h[i] by {
        lemma_maj_two_equal(h[i], h[i]);
    }
    assert(majority_header(triple) =~= h);
}

/// Flipping any single bit anywhere in a triplicated header still recovers
/// the original header by majority vote.
pub proof fn lemma_header_majority(h: Seq<u8>, p: int, t: u32)
    requires
        h.len() == 48,
        0 <= p < 144,
        t < 8,
    ensures
        ({
            let triple = h + h + h;
            majority_header(triple.update(p, triple[p] ^ (1u8 << t))) == h
        }),
{
    let triple = h + h + h;
    let flipped = triple.update(p, triple[p] ^ (1u8 << t));
    assert forall|i: int| 0 <= i < 48 implies majority_header(flipped)[i] == h[i] by {
        let x = triple[p] ^ (1u8 << t);
        lemma_maj_two_equal(h[i], x);
        lemma_maj_two_equal(h[i], h[i]);
        if p == i {
            assert(flipped[i] == x && flipped[48 + i] == h[i] && flipped[96 + i] == h[i]);
        } else if p == 48 + i {
            assert(flipped[i] == h[i] && flipped[48 + i] == x && flipped[96 + i] == h[i]);
        } else if p == 96 + i {
            assert(flipped[i] == h[i] && flipped[48 + i] == h[i] && flipped[96 + i] == x);
        } else {
            assert(flipped[i] == h[i] && flipped[48 + i] == h[i] && flipped[96 + i] == h[i]);
        }
    }
    assert(majority_header(flipped) =~= h);
}

} // verus!
