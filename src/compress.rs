//! The full-block codec: a block of `BLOCK_LEN` sorted integers is
//! delta-encoded against a baseline and bit-packed behind a one-byte header
//! that gives the bit width.
use vstd::prelude::*;
use vstd::slice::slice_subrange;
use bitpacking::BitPacker;
use byteorder::WriteBytesExt;

verus! {

/// Number of integers in a full block: the native width of the bit packer.
pub const BLOCK_LEN: usize = 32;

/// Largest length of a partial block.
pub const BLOCK_LEN_M1: usize = 31;

/// Why a sequence could not be encoded, or a buffer could not be decoded.
#[derive(Debug, Clone, Copy, PartialEq, Eq, Structural)]
pub enum CodecError {
    /// The integers to encode are not in non-decreasing order.
    NotSorted,
    /// The compressed buffer ends before the blocks it should hold.
    SizeMismatch,
    /// A full block announces more than 32 bits per integer.
    BadBitWidth,
}

// ---------------------------------------------------------------------------
// Mathematical model of a block
// ---------------------------------------------------------------------------

/// `s` is non-decreasing and starts at or above `initial`.
pub open spec fn sorted_from(initial: u32, s: Seq<u32>) -> bool {
    &&& forall|i: int, j: int| 0 <= i <= j < s.len() ==> s[i] <= s[j]
    &&& s.len() > 0 ==> initial <= s[0]
}

/// The `i`-th delta of `s` against the baseline `initial`.
pub open spec fn delta_at(initial: u32, s: Seq<u32>, i: int) -> int {
    if i == 0 {
        s[0] - initial
    } else {
        s[i] - s[i - 1]
    }
}

/// `2` to the power `k`.
pub open spec fn pow2(k: nat) -> nat
    decreases k,
{
    if k == 0 {
        1
    } else {
        2 * pow2((k - 1) as nat)
    }
}

/// Number of bits needed to write `d` (zero for zero).
pub open spec fn bit_width(d: nat) -> nat
    decreases d,
{
    if d == 0 {
        0
    } else {
        1 + bit_width(d / 2)
    }
}

/// Largest bit width among the first `k` deltas of `s`.
pub open spec fn max_delta_width(initial: u32, s: Seq<u32>, k: int) -> nat
    decreases k,
{
    if k <= 0 {
        0
    } else {
        let prev = max_delta_width(initial, s, k - 1);
        let w = bit_width(delta_at(initial, s, k - 1) as nat);
        if w > prev {
            w
        } else {
            prev
        }
    }
}

/// The bit width that a full block is packed with: the width of its largest
/// delta.
pub open spec fn block_width(initial: u32, s: Seq<u32>) -> nat {
    max_delta_width(initial, s, s.len() as int)
}

/// Bytes taken by the packed payload of a full block at `num_bits` bits per
/// integer.
pub open spec fn packed_len(num_bits: nat) -> nat {
    num_bits * 4
}

/// `p` is a prefix of `s`.
pub open spec fn is_prefix(p: Seq<u8>, s: Seq<u8>) -> bool {
    p.len() <= s.len() && s.take(p.len() as int) == p
}

// ---------------------------------------------------------------------------
// Names for what the outside codecs compute
// ---------------------------------------------------------------------------

/// The payload that the bit packer writes for `block`, delta-encoded against
/// `initial`, at `num_bits` bits per delta.
pub uninterp spec fn bit_packed(initial: u32, block: Seq<u32>, num_bits: u8) -> Seq<u8>;

/// The block that the bit packer reads back from `packed` at `num_bits` bits
/// per delta, integrated from `initial`.
pub uninterp spec fn bit_unpacked(initial: u32, packed: Seq<u8>, num_bits: u8) -> Seq<u32>;

// ---------------------------------------------------------------------------
// Block formats
// ---------------------------------------------------------------------------

/// The `packed_len(num_bits)` bytes that the bit packer writes for `block`.
pub open spec fn packed_payload(initial: u32, block: Seq<u32>, num_bits: u8) -> Seq<u8> {
    Seq::new(packed_len(num_bits as nat), |i: int| bit_packed(initial, block, num_bits)[i])
}

/// A full block as written: its bit width in one byte, then the packed deltas.
pub open spec fn full_block_bytes(initial: u32, block: Seq<u32>) -> Seq<u8> {
    let w = block_width(initial, block) as u8;
    seq![w] + packed_payload(initial, block, w)
}

/// What reading one full block from the front of `bytes` gives: the block and
/// the number of bytes it took, or why it could not be read.
pub open spec fn full_block_decoded(initial: u32, bytes: Seq<u8>) -> Result<(Seq<u32>, nat), CodecError> {
    if bytes.len() == 0 {
        Err(CodecError::SizeMismatch)
    } else if bytes[0] > 32 {
        Err(CodecError::BadBitWidth)
    } else if bytes.len() < 1 + packed_len(bytes[0] as nat) {
        Err(CodecError::SizeMismatch)
    } else {
        let w = bytes[0];
        let used = 1 + packed_len(w as nat);
        Ok((bit_unpacked(initial, bytes.subrange(1, used as int), w), used))
    }
}

// ---------------------------------------------------------------------------
// Calls into the outside codecs
// ---------------------------------------------------------------------------

/// Relies on `bitpacking::BitPacker::num_bits_sorted` of `BitPacker1x`: the
/// number of bits of the largest delta of a block of `BLOCK_LEN` sorted
/// integers, the first delta taken against `initial`.
#[verifier::external_body]
fn sorted_bit_width(initial: u32, block: &[u32]) -> (r: u8)
    requires
        block@.len() == BLOCK_LEN,
        sorted_from(initial, block@),
    ensures
        r as nat == block_width(initial, block@),
{
    bitpacking::BitPacker1x::new().num_bits_sorted(initial, block)
}

/// Relies on `bitpacking::BitPacker::compress_sorted` of `BitPacker1x`, into a
/// buffer of `compressed_block_size(num_bits)` bytes: it writes exactly that
/// many bytes, `BLOCK_LEN * num_bits / 8`.
#[verifier::external_body]
fn pack_sorted_block(initial: u32, block: &[u32], num_bits: u8) -> (r: Vec<u8>)
    requires
        block@.len() == BLOCK_LEN,
        sorted_from(initial, block@),
        num_bits <= 32,
    ensures
        r@ == bit_packed(initial, block@, num_bits),
        r@.len() == packed_len(num_bits as nat),
{
    let mut out = vec![0u8; bitpacking::BitPacker1x::compressed_block_size(num_bits)];
    bitpacking::BitPacker1x::new().compress_sorted(initial, block, &mut out, num_bits);
    out
}

/// Relies on `bitpacking::BitPacker::decompress_sorted` of `BitPacker1x`: it
/// reads `BLOCK_LEN * num_bits / 8` bytes, writes `BLOCK_LEN` integers, and
/// undoes `compress_sorted` for the same `initial` and a `num_bits` that holds
/// every delta.
#[verifier::external_body]
fn unpack_sorted_block(initial: u32, packed: &[u8], num_bits: u8) -> (r: Vec<u32>)
    requires
        num_bits <= 32,
        packed@.len() == packed_len(num_bits as nat),
    ensures
        r@ == bit_unpacked(initial, packed@, num_bits),
        r@.len() == BLOCK_LEN,
        forall|block: Seq<u32>|
            block.len() == BLOCK_LEN && sorted_from(initial, block) && num_bits as nat
                == block_width(initial, block) && packed@ == #[trigger] packed_payload(
                initial,
                block,
                num_bits,
            ) ==> r@ == block,
{
    let mut out = vec![0u32; bitpacking::BitPacker1x::BLOCK_LEN];
    bitpacking::BitPacker1x::new().decompress_sorted(initial, packed, &mut out, num_bits);
    out
}

/// Relies on `byteorder::WriteBytesExt::write_u8` on a `Vec<u8>`: the byte is
/// appended; writing into a `Vec` does not fail.
#[verifier::external_body]
fn append_byte(output: &mut Vec<u8>, b: u8)
    ensures
        final(output)@ == old(output)@.push(b),
{
    output.write_u8(b).unwrap()
}

// ---------------------------------------------------------------------------
// Bounds on the bit width
// ---------------------------------------------------------------------------

proof fn lemma_bit_width_le(d: nat, k: nat)
    requires
        d < pow2(k),
    ensures
        bit_width(d) <= k,
    decreases d,
{
    if d > 0 {
        assert(k > 0);
        lemma_bit_width_le(d / 2, (k - 1) as nat);
    }
}

proof fn lemma_max_delta_width_le(initial: u32, s: Seq<u32>, k: int)
    requires
        sorted_from(initial, s),
        k <= s.len(),
    ensures
        max_delta_width(initial, s, k) <= 32,
    decreases k,
{
    reveal_with_fuel(pow2, 33);
    assert(pow2(32) == 0x1_0000_0000);
    if k > 0 {
        lemma_max_delta_width_le(initial, s, k - 1);
        let d = delta_at(initial, s, k - 1);
        assert(0 <= d < 0x1_0000_0000);
        lemma_bit_width_le(d as nat, 32);
    }
}

/// The width of a sorted block fits the 32 bits of its integers.
pub proof fn lemma_block_width_le_32(initial: u32, s: Seq<u32>)
    requires
        sorted_from(initial, s),
    ensures
        block_width(initial, s) <= 32,
{
    lemma_max_delta_width_le(initial, s, s.len() as int);
}

// ---------------------------------------------------------------------------
// The codec
// ---------------------------------------------------------------------------

/// A codec for full blocks: each is delta-encoded against a baseline, the
/// largest value seen before it.
pub trait Compressor {
    /// Appends the encoding of the full block `input`, taken against
    /// `initial`, to `output`; returns the number of bytes appended.
    fn compress_sorted_full(initial: u32, input: &[u32], output: &mut Vec<u8>) -> (r: usize)
        requires
            input@.len() == BLOCK_LEN,
            sorted_from(initial, input@),
        ensures
            final(output)@ == old(output)@ + full_block_bytes(initial, input@),
            r == full_block_bytes(initial, input@).len(),
            r <= 1 + packed_len(32),
    ;

    /// Reads one full block from the front of `input`, integrating from
    /// `initial`, and appends it to `output`; returns the number of bytes
    /// read.
    fn decompress_sorted_full(initial: u32, input: &[u8], output: &mut Vec<u32>) -> (r: Result<usize, CodecError>)
        ensures
            match full_block_decoded(initial, input@) {
                Ok((block, used)) => r == Ok::<usize, CodecError>(used as usize) && final(output)@
                    == old(output)@ + block && block.len() == BLOCK_LEN,
                Err(e) => r == Err::<usize, CodecError>(e) && final(output)@ == old(output)@,
            },
            forall|block: Seq<u32>|
                block.len() == BLOCK_LEN && sorted_from(initial, block) && is_prefix(
                    #[trigger] full_block_bytes(initial, block),
                    input@,
                ) ==> r == Ok::<usize, CodecError>(full_block_bytes(initial, block).len() as usize)
                    && final(output)@ == old(output)@ + block,
    ;
}

/// Bit-packing for full blocks, with the scalar packer of `BLOCK_LEN`
/// integers. Partial blocks take variable-byte delta coding (streamvbyte),
/// which the caller applies at the offset and baseline that `ioqp_encode`
/// and `ioqp_decode` give.
#[derive(Debug)]
pub struct SimdBPandStreamVbyte;

impl Compressor for SimdBPandStreamVbyte {
    fn compress_sorted_full(initial: u32, input: &[u32], output: &mut Vec<u8>) -> (r: usize) {
        let num_bits = sorted_bit_width(initial, input);
        proof {
            lemma_block_width_le_32(initial, input@);
        }
        append_byte(output, num_bits);
        let packed = pack_sorted_block(initial, input, num_bits);
        let mut i: usize = 0;
        while i < packed.len()
            invariant
                i <= packed@.len(),
                output@ == old(output)@ + seq![num_bits] + packed@.take(i as int),
            decreases packed@.len() - i,
        {
            output.push(packed[i]);
            i = i + 1;
            proof {
                assert(packed@.take(i as int) == packed@.take(i - 1).push(packed@[i - 1]));
            }
        }
        proof {
            assert(packed@.take(i as int) == packed@);
            assert(packed@ == packed_payload(initial, input@, num_bits));
            assert(old(output)@ + seq![num_bits] + packed@ == old(output)@ + full_block_bytes(initial, input@));
        }
        packed.len() + 1
    }

    fn decompress_sorted_full(initial: u32, input: &[u8], output: &mut Vec<u32>) -> (r: Result<usize, CodecError>) {
        proof {
            assert forall|block: Seq<u32>|
                block.len() == BLOCK_LEN && sorted_from(initial, block) && is_prefix(
                    #[trigger] full_block_bytes(initial, block),
                    input@,
                ) implies ({
                    let w = block_width(initial, block);
                    &&& w <= 32
                    &&& input@.len() >= 1 + packed_len(w)
                    &&& input@[0] == w as u8
                    &&& input@.subrange(1, 1 + packed_len(w) as int) == packed_payload(initial, block, w as u8)
                }) by {
                let w = block_width(initial, block);
                lemma_block_width_le_32(initial, block);
                let enc = full_block_bytes(initial, block);
                assert((w as u8) as nat == w);
                let payload = packed_payload(initial, block, w as u8);
                assert(payload.len() == packed_len(w));
                assert(enc.len() == 1 + packed_len(w));
                assert(input@.take(enc.len() as int) == enc);
                assert(enc[0] == input@[0]);
                assert forall|i: int| 0 <= i < payload.len() implies input@[1 + i] == payload[i] by {
                    assert(enc[1 + i] == payload[i]);
                    assert(input@.take(enc.len() as int)[1 + i] == input@[1 + i]);
                }
                assert(input@.subrange(1, 1 + packed_len(w) as int) =~= packed_payload(initial, block, w as u8));
            }
        }
        if input.len() == 0 {
            return Err(CodecError::SizeMismatch);
        }
        let num_bits = input[0];
        if num_bits > 32 {
            return Err(CodecError::BadBitWidth);
        }
        let bits: usize = num_bits as usize * BLOCK_LEN;
        let compressed_len: usize = bits >> 3;
        assert(compressed_len == bits / 8) by (bit_vector)
            requires
                compressed_len == bits >> 3,
        ;
        if input.len() - 1 < compressed_len {
            return Err(CodecError::SizeMismatch);
        }
        let packed = slice_subrange(input, 1, compressed_len + 1);
        let block = unpack_sorted_block(initial, packed, num_bits);
        let mut i: usize = 0;
        while i < block.len()
            invariant
                i <= block@.len(),
                output@ == old(output)@ + block@.take(i as int),
            decreases block@.len() - i,
        {
            output.push(block[i]);
            i = i + 1;
            proof {
                assert(block@.take(i as int) == block@.take(i - 1).push(block@[i - 1]));
            }
        }
        proof {
            assert(block@.take(i as int) == block@);
            assert(packed@ == input@.subrange(1, 1 + packed_len(num_bits as nat) as int));
        }
        Ok(compressed_len + 1)
    }
}

} // verus!
