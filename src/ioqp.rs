//! Encoding and decoding of whole sequences: the sequence is cut into blocks
//! of `BLOCK_LEN` integers, a baseline is carried from block to block, and
//! each full block goes through the full-block codec. The trailing partial
//! block, if any, is written by a variable-byte delta codec at the caller's
//! side: these functions say where it starts and which baseline it takes.
use vstd::prelude::*;
use vstd::slice::slice_subrange;
use crate::compress::{
    Compressor, SimdBPandStreamVbyte, CodecError, BLOCK_LEN, sorted_from, full_block_bytes,
    full_block_decoded, is_prefix, packed_len,
};

verus! {

/// `s` is non-decreasing.
pub open spec fn is_sorted(s: Seq<u32>) -> bool {
    forall|i: int, j: int| 0 <= i <= j < s.len() ==> s[i] <= s[j]
}

/// Number of integers of a sequence of length `n` that lie in full blocks.
pub open spec fn full_part_len(n: nat) -> nat {
    (n / BLOCK_LEN as nat) * BLOCK_LEN as nat
}

/// The baseline in force at position `pos` of `s`: the value just before it,
/// or zero at the start.
pub open spec fn baseline_at(s: Seq<u32>, pos: int) -> u32 {
    if pos <= 0 {
        0
    } else {
        s[pos - 1]
    }
}

/// The last value of `s`, or zero when `s` is empty.
pub open spec fn last_or_zero(s: Seq<u32>) -> u32 {
    if s.len() == 0 {
        0
    } else {
        s.last()
    }
}

/// The encodings of the full blocks at the front of `s`, one after the
/// other, the first taken against `initial` and each next one against the
/// last value of the block before it.
pub open spec fn full_blocks_from(initial: u32, s: Seq<u32>) -> Seq<u8>
    decreases s.len(),
{
    if s.len() < BLOCK_LEN {
        seq![]
    } else {
        full_block_bytes(initial, s.take(BLOCK_LEN as int)) + full_blocks_from(
            s[BLOCK_LEN - 1],
            s.skip(BLOCK_LEN as int),
        )
    }
}

/// The encoding of the full blocks of `s`, from baseline zero.
pub open spec fn full_blocks_encoding(s: Seq<u32>) -> Seq<u8> {
    full_blocks_from(0, s)
}

/// `r` with `vals` put before its integers and `used` added to its byte
/// count.
pub open spec fn prepend(vals: Seq<u32>, used: nat, r: Result<(Seq<u32>, nat), CodecError>) -> Result<(Seq<u32>, nat), CodecError> {
    match r {
        Ok((v, u)) => Ok((vals + v, used + u)),
        Err(e) => Err(e),
    }
}

/// What reading `k` full blocks from the front of `bytes` gives: their
/// integers and the bytes they took, or the first error met.
pub open spec fn full_blocks_decoded(initial: u32, bytes: Seq<u8>, k: nat) -> Result<(Seq<u32>, nat), CodecError>
    decreases k,
{
    if k == 0 {
        Ok((seq![], 0))
    } else {
        match full_block_decoded(initial, bytes) {
            Err(e) => Err(e),
            Ok((block, used)) => prepend(
                block,
                used,
                full_blocks_decoded(block[BLOCK_LEN - 1], bytes.skip(used as int), (k - 1) as nat),
            ),
        }
    }
}

/// A sorted sequence of `n` integers whose full blocks are encoded at the
/// front of `bytes`.
pub open spec fn encoded_at_front(s: Seq<u32>, n: nat, bytes: Seq<u8>) -> bool {
    s.len() == n && is_sorted(s) && is_prefix(full_blocks_encoding(s), bytes)
}

/// The full blocks of a sequence, encoded, and where its partial block
/// begins.
pub struct EncodedBlocks {
    /// The encodings of the full blocks, in order.
    pub bytes: Vec<u8>,
    /// Index of the first integer of the partial block: the length of the
    /// sequence when there is none.
    pub tail_start: usize,
    /// The baseline that the partial block is encoded against.
    pub tail_baseline: u32,
}

/// The integers of the full blocks read back, and where the partial block
/// lies.
pub struct DecodedBlocks {
    /// The integers of the full blocks, in order.
    pub values: Vec<u32>,
    /// Offset of the partial block's bytes in the compressed buffer.
    pub tail_offset: usize,
    /// The baseline that the partial block is decoded from.
    pub tail_baseline: u32,
    /// Number of integers in the partial block (zero when there is none).
    pub tail_len: usize,
}

proof fn lemma_prepend_empty(r: Result<(Seq<u32>, nat), CodecError>)
    ensures
        prepend(seq![], 0, r) == r,
{
    match r {
        Ok((v, u)) => {
            assert(Seq::<u32>::empty() + v =~= v);
        },
        Err(_) => {},
    }
}

proof fn lemma_prepend_prepend(a: Seq<u32>, c: nat, b: Seq<u32>, d: nat, r: Result<(Seq<u32>, nat), CodecError>)
    ensures
        prepend(a, c, prepend(b, d, r)) == prepend(a + b, c + d, r),
{
    match r {
        Ok((v, u)) => {
            assert(a + (b + v) =~= (a + b) + v);
        },
        Err(_) => {},
    }
}

proof fn lemma_prefix_split(a: Seq<u8>, b: Seq<u8>, r: Seq<u8>)
    requires
        is_prefix(a + b, r),
    ensures
        is_prefix(a, r),
        is_prefix(b, r.skip(a.len() as int)),
{
    assert(r.take((a + b).len() as int) == a + b);
    assert(r.take(a.len() as int) =~= a) by {
        assert forall|i: int| 0 <= i < a.len() implies r[i] == a[i] by {
            assert(r.take((a + b).len() as int)[i] == (a + b)[i]);
        }
    }
    assert(r.skip(a.len() as int).take(b.len() as int) =~= b) by {
        assert forall|i: int| 0 <= i < b.len() implies r[a.len() + i] == b[i] by {
            assert(r.take((a + b).len() as int)[a.len() + i] == (a + b)[a.len() + i]);
        }
    }
}

/// The bytes that `ioqp_encode` gives for a sorted sequence are a buffer
/// that `ioqp_decode` takes back to that sequence's full blocks, for the
/// sequence's own length.
pub proof fn lemma_round_trip(s: Seq<u32>)
    requires
        is_sorted(s),
    ensures
        encoded_at_front(s, s.len(), full_blocks_encoding(s)),
{
    let e = full_blocks_encoding(s);
    assert(e.take(e.len() as int) =~= e);
}

/// Encoding is deterministic: equal sequences have byte-identical
/// encodings, so two calls of `ioqp_encode` on the same input give the same
/// bytes.
pub proof fn lemma_encoding_deterministic(s1: Seq<u32>, s2: Seq<u32>)
    requires
        s1 == s2,
    ensures
        full_blocks_encoding(s1) == full_blocks_encoding(s2),
{
}

/// Checks that `source` is non-decreasing.
fn check_sorted(source: &[u32]) -> (r: bool)
    ensures
        r == is_sorted(source@),
{
    let n = source.len();
    if n == 0 {
        return true;
    }
    let mut i: usize = 1;
    while i < n
        invariant
            1 <= i <= n,
            n == source@.len(),
            forall|a: int, b: int| 0 <= a <= b < i ==> source@[a] <= source@[b],
        decreases n - i,
    {
        if source[i - 1] > source[i] {
            return false;
        }
        assert forall|a: int, b: int| 0 <= a <= b < i + 1 implies source@[a] <= source@[b] by {
            if b == i && a < b {
                assert(source@[a] <= source@[i - 1]);
            }
        }
        i = i + 1;
    }
    true
}

/// Encodes the full blocks of the sorted sequence `source`: every run of
/// `BLOCK_LEN` integers from the front, each against the last value of the
/// block before it (zero for the first). Also says where the partial block
/// begins and which baseline it takes.
pub fn ioqp_encode(source: &[u32]) -> (r: Result<EncodedBlocks, CodecError>)
    ensures
        r is Err <==> !is_sorted(source@),
        r is Err ==> r == Err::<EncodedBlocks, CodecError>(CodecError::NotSorted),
        r is Ok ==> ({
            let e = r->Ok_0;
            &&& e.bytes@ == full_blocks_encoding(source@)
            &&& e.tail_start == full_part_len(source@.len())
            &&& e.tail_baseline == baseline_at(source@, e.tail_start as int)
            &&& e.bytes@.len() <= (source@.len() / BLOCK_LEN as nat) * (1 + packed_len(32))
            &&& source@.len() == 0 ==> e.bytes@.len() == 0
        }),
{
    if !check_sorted(source) {
        return Err(CodecError::NotSorted);
    }
    let ghost s = source@;
    let n = source.len();
    let mut bytes: Vec<u8> = Vec::new();
    let mut initial: u32 = 0;
    let mut pos: usize = 0;
    proof {
        assert(s.skip(0) =~= s);
        assert(bytes@ + full_blocks_from(initial, s.skip(0)) =~= full_blocks_encoding(s));
    }
    while n - pos >= BLOCK_LEN
        invariant
            s == source@,
            n == s.len(),
            is_sorted(s),
            pos <= n,
            pos % BLOCK_LEN == 0,
            initial == baseline_at(s, pos as int),
            bytes@ + full_blocks_from(initial, s.skip(pos as int)) == full_blocks_encoding(s),
            bytes@.len() <= (pos / BLOCK_LEN) * (1 + packed_len(32)),
        decreases n - pos,
    {
        let block = slice_subrange(source, pos, pos + BLOCK_LEN);
        let ghost rest = s.skip(pos as int);
        let ghost old_bytes = bytes@;
        proof {
            assert(rest.take(BLOCK_LEN as int) =~= block@);
            assert(rest.skip(BLOCK_LEN as int) =~= s.skip(pos + BLOCK_LEN));
            assert(sorted_from(initial, block@));
        }
        SimdBPandStreamVbyte::compress_sorted_full(initial, block, &mut bytes);
        initial = block[BLOCK_LEN - 1];
        pos = pos + BLOCK_LEN;
        proof {
            let head = full_block_bytes(baseline_at(s, pos - BLOCK_LEN), block@);
            let tail = full_blocks_from(initial, s.skip(pos as int));
            assert(old_bytes + (head + tail) =~= (old_bytes + head) + tail);
            let k = (pos - BLOCK_LEN) / BLOCK_LEN as int;
            assert(pos as int / BLOCK_LEN as int == k + 1);
            assert((k + 1) * 129 == k * 129 + 129) by (nonlinear_arith);
        }
    }
    proof {
        assert(s.skip(pos as int).len() < BLOCK_LEN);
        assert(bytes@ + seq![] =~= bytes@);
    }
    Ok(EncodedBlocks { bytes, tail_start: pos, tail_baseline: initial })
}

/// One step of the decoder on a sequence encoded at the front of the buffer:
/// the next full block is sorted against the baseline, and its encoding
/// stands at the cursor.
proof fn lemma_next_block(s: Seq<u32>, pos: int, initial: u32, rest: Seq<u8>)
    requires
        is_sorted(s),
        0 <= pos,
        pos + BLOCK_LEN <= s.len(),
        initial == baseline_at(s, pos),
        is_prefix(full_blocks_from(initial, s.skip(pos)), rest),
    ensures
        s.subrange(pos, pos + BLOCK_LEN) == s.skip(pos).take(BLOCK_LEN as int),
        s.skip(pos).skip(BLOCK_LEN as int) == s.skip(pos + BLOCK_LEN),
        sorted_from(initial, s.subrange(pos, pos + BLOCK_LEN)),
        full_blocks_from(initial, s.skip(pos)) == full_block_bytes(
            initial,
            s.subrange(pos, pos + BLOCK_LEN),
        ) + full_blocks_from(s[pos + BLOCK_LEN - 1], s.skip(pos + BLOCK_LEN)),
        is_prefix(full_block_bytes(initial, s.subrange(pos, pos + BLOCK_LEN)), rest),
        is_prefix(
            full_blocks_from(s[pos + BLOCK_LEN - 1], s.skip(pos + BLOCK_LEN)),
            rest.skip(full_block_bytes(initial, s.subrange(pos, pos + BLOCK_LEN)).len() as int),
        ),
{
    assert(s.subrange(pos, pos + BLOCK_LEN) =~= s.skip(pos).take(BLOCK_LEN as int));
    assert(s.skip(pos).skip(BLOCK_LEN as int) =~= s.skip(pos + BLOCK_LEN));
    let block = s.subrange(pos, pos + BLOCK_LEN);
    assert(sorted_from(initial, block)) by {
        if pos > 0 {
            assert(s[pos - 1] <= s[pos]);
        }
    }
    lemma_prefix_split(
        full_block_bytes(initial, block),
        full_blocks_from(s[pos + BLOCK_LEN - 1], s.skip(pos + BLOCK_LEN)),
        rest,
    );
}

/// Decodes the full blocks of a sequence of `integers_to_decode` integers
/// from the front of `source`: as many blocks as fit whole in that length,
/// each integrated from the last value of the block before it (zero for the
/// first). Also says where the partial block's bytes begin, which baseline it
/// takes, and how many integers it holds.
///
/// A buffer that starts with the full-block encoding of a sorted sequence of
/// that length gives back that sequence's full blocks, with the baseline and
/// byte offset that the encoder left for its partial block.
pub fn ioqp_decode(integers_to_decode: usize, source: &[u8]) -> (r: Result<DecodedBlocks, CodecError>)
    ensures
        match full_blocks_decoded(0, source@, integers_to_decode as nat / BLOCK_LEN as nat) {
            Ok((vals, used)) => r is Ok && ({
                let d = r->Ok_0;
                &&& d.values@ == vals
                &&& d.tail_offset == used
                &&& d.tail_baseline == last_or_zero(vals)
                &&& d.tail_len == integers_to_decode % BLOCK_LEN
                &&& d.values@.len() == full_part_len(integers_to_decode as nat)
            }),
            Err(e) => r == Err::<DecodedBlocks, CodecError>(e),
        },
        forall|s: Seq<u32>|
            #[trigger] encoded_at_front(s, integers_to_decode as nat, source@) ==> r is Ok && ({
                let d = r->Ok_0;
                let full = full_part_len(integers_to_decode as nat);
                &&& d.values@ == s.take(full as int)
                &&& d.tail_offset == full_blocks_encoding(s).len()
                &&& d.tail_baseline == baseline_at(s, full as int)
            }),
{
    let n = integers_to_decode;
    let ghost src = source@;
    let mut values: Vec<u32> = Vec::new();
    let mut remaining_u32s: usize = n;
    let mut bytes: usize = 0;
    let mut initial: u32 = 0;
    proof {
        assert(src.skip(0) =~= src);
        lemma_prepend_empty(full_blocks_decoded(0, src, n as nat / BLOCK_LEN as nat));
        assert forall|s: Seq<u32>| #[trigger] encoded_at_front(s, n as nat, src) implies ({
            &&& values@ == s.take(0)
            &&& initial == baseline_at(s, 0)
            &&& is_prefix(full_blocks_from(initial, s.skip(0)), src.skip(0))
            &&& 0 + full_blocks_from(initial, s.skip(0)).len() == full_blocks_encoding(s).len()
        }) by {
            assert(s.skip(0) =~= s);
            assert(s.take(0) =~= values@);
        }
    }
    while remaining_u32s >= BLOCK_LEN
        invariant
            src == source@,
            n == integers_to_decode,
            values@.len() + remaining_u32s == n,
            values@.len() % BLOCK_LEN as nat == 0,
            bytes <= src.len(),
            initial == last_or_zero(values@),
            full_blocks_decoded(0, src, n as nat / BLOCK_LEN as nat) == prepend(
                values@,
                bytes as nat,
                full_blocks_decoded(initial, src.skip(bytes as int), remaining_u32s as nat / BLOCK_LEN as nat),
            ),
            forall|s: Seq<u32>| #[trigger] encoded_at_front(s, n as nat, src) ==> ({
                &&& values@ == s.take(values@.len() as int)
                &&& initial == baseline_at(s, values@.len() as int)
                &&& is_prefix(full_blocks_from(initial, s.skip(values@.len() as int)), src.skip(bytes as int))
                &&& bytes + full_blocks_from(initial, s.skip(values@.len() as int)).len()
                    == full_blocks_encoding(s).len()
            }),
        decreases remaining_u32s,
    {
        let rest = slice_subrange(source, bytes, source.len());
        let ghost old_values = values@;
        let ghost pos = values@.len() as int;
        let ghost k = remaining_u32s as nat / BLOCK_LEN as nat;
        proof {
            assert(rest@ == src.skip(bytes as int));
            assert(k >= 1);
            assert forall|s: Seq<u32>| #[trigger] encoded_at_front(s, n as nat, src) implies ({
                let block = s.subrange(pos, pos + BLOCK_LEN);
                &&& block.len() == BLOCK_LEN
                &&& sorted_from(initial, block)
                &&& is_prefix(full_block_bytes(initial, block), rest@)
            }) by {
                lemma_next_block(s, pos, initial, rest@);
            }
        }
        let step = SimdBPandStreamVbyte::decompress_sorted_full(initial, rest, &mut values);
        match step {
            Err(e) => {
                proof {
                    assert(full_block_decoded(initial, rest@) == Err::<(Seq<u32>, nat), CodecError>(e));
                    assert(full_blocks_decoded(initial, rest@, k) == Err::<(Seq<u32>, nat), CodecError>(e));
                    assert(full_blocks_decoded(0, src, n as nat / BLOCK_LEN as nat) == Err::<(Seq<u32>, nat), CodecError>(e));
                    assert forall|s: Seq<u32>| #[trigger] encoded_at_front(s, n as nat, src) implies false by {
                        let block = s.subrange(pos, pos + BLOCK_LEN);
                        assert(is_prefix(full_block_bytes(initial, block), rest@));
                    }
                }
                return Err(e);
            },
            Ok(used) => {
                let ghost old_bytes = bytes;
                let ghost old_initial = initial;
                bytes = bytes + used;
                initial = values[values.len() - 1];
                remaining_u32s = remaining_u32s - BLOCK_LEN;
                proof {
                    let (block, u) = full_block_decoded(old_initial, rest@)->Ok_0;
                    assert(u == used);
                    assert(values@ == old_values + block);
                    assert(initial == block[BLOCK_LEN - 1]);
                    assert(full_blocks_decoded(old_initial, rest@, k) == prepend(
                        block,
                        u,
                        full_blocks_decoded(initial, rest@.skip(u as int), (k - 1) as nat),
                    ));
                    assert(rest@.skip(used as int) =~= src.skip(bytes as int));
                    assert(remaining_u32s as nat / BLOCK_LEN as nat == k - 1);
                    lemma_prepend_prepend(old_values, old_bytes as nat, block, used as nat,
                        full_blocks_decoded(initial, src.skip(bytes as int), (k - 1) as nat));
                    assert forall|s: Seq<u32>| #[trigger] encoded_at_front(s, n as nat, src) implies ({
                        &&& values@ == s.take(values@.len() as int)
                        &&& initial == baseline_at(s, values@.len() as int)
                        &&& is_prefix(full_blocks_from(initial, s.skip(values@.len() as int)), src.skip(bytes as int))
                        &&& bytes + full_blocks_from(initial, s.skip(values@.len() as int)).len()
                            == full_blocks_encoding(s).len()
                    }) by {
                        lemma_next_block(s, pos, old_initial, rest@);
                        let sb = s.subrange(pos, pos + BLOCK_LEN);
                        assert(is_prefix(full_block_bytes(old_initial, sb), rest@));
                        assert(block =~= values@.subrange(pos, pos + BLOCK_LEN));
                        assert(sb =~= values@.subrange(pos, pos + BLOCK_LEN));
                        assert(values@ =~= s.take(pos + BLOCK_LEN));
                        assert(initial == s[pos + BLOCK_LEN - 1]);
                    }
                }
            },
        }
    }
    proof {
        assert(remaining_u32s as nat / BLOCK_LEN as nat == 0);
        let fin = full_blocks_decoded(initial, src.skip(bytes as int), 0);
        assert(values@ + seq![] =~= values@);
        assert(n as nat / BLOCK_LEN as nat * BLOCK_LEN as nat == values@.len());
        assert forall|s: Seq<u32>| #[trigger] encoded_at_front(s, n as nat, src) implies
            bytes == full_blocks_encoding(s).len() by {
            assert(s.skip(values@.len() as int).len() < BLOCK_LEN);
        }
    }
    Ok(DecodedBlocks { values, tail_offset: bytes, tail_baseline: initial, tail_len: remaining_u32s })
}

} // verus!
